use fmttools::{
    debug_to_string, render_to_string, DebugWith, DisplayWith, Sink, ToFormatWith, WriteError,
};

struct Registry {
    names: Vec<(u32, String)>,
}

impl Registry {
    fn name_of(&self, key: u32) -> &str {
        for (k, name) in &self.names {
            if *k == key {
                return name.as_str();
            }
        }
        "unknown"
    }
}

struct FooEntry {
    key: u32,
}

impl DisplayWith<Registry> for FooEntry {
    fn fmt<W: Sink>(&self, out: W, extra: &Registry) -> (W, Result<(), WriteError>) {
        let mut out = out;
        let r = out.write_str(extra.name_of(self.key));
        (out, r)
    }
}

impl DebugWith<Registry> for FooEntry {
    fn fmt<W: Sink>(&self, out: W, extra: &Registry) -> (W, Result<(), WriteError>) {
        let mut out = out;
        let text = format!("FooEntry {{ key: {:?} }}", extra.name_of(self.key));
        let r = out.write_str(text.as_str());
        (out, r)
    }
}

fn registry() -> Registry {
    Registry {
        names: vec![
            (2, "FooA".to_string()),
            (5, "FooB".to_string()),
            (9, "Bar".to_string()),
        ],
    }
}

#[test]
fn debug_with_looks_the_key_up() {
    let registry = registry();
    let entry = FooEntry { key: 5 };
    assert_eq!(
        debug_to_string(&entry.fmt_with(&registry)),
        "FooEntry { key: \"FooB\" }"
    );
}

#[test]
fn display_with_looks_the_key_up() {
    let registry = registry();
    assert_eq!(
        render_to_string(&FooEntry { key: 9 }.fmt_with(&registry)),
        "Bar"
    );
    assert_eq!(
        render_to_string(&FooEntry { key: 1 }.fmt_with(&registry)),
        "unknown"
    );
}
