use fmttools::{
    classify, debug_to_string, join, render_to_string, replace, CharReplacer, EmptyReplacer,
    Limited, PatternKind, Render, RenderDebug, Sink, StrReplacer, WriteError,
};

#[test]
fn replace_char_simple() {
    let out = render_to_string(&replace(".abc. defs ... fd.", '.', "foo"));
    assert_eq!(out, ".abc. defs ... fd.".replace('.', "foo"));
}

#[test]
fn replace_char_same() {
    let out = render_to_string(&replace(".abc. defs ... fd.", '.', "."));
    assert_eq!(out, ".abc. defs ... fd.".replace('.', "."));
}

#[test]
fn replace_char_complex() {
    let pieces = [
        format!("{}", 13.25),
        " . abc".to_string(),
        format!("{:?}", "a.b"),
        " ".to_string(),
        format!("{}", ".."),
    ];
    let chunks: Vec<&str> = pieces.iter().map(|piece| piece.as_str()).collect();
    let out = render_to_string(&replace(join(&chunks, ""), '.', "foo"));
    let expected = "13foo25 foo abc\"afoob\" foofoo";

    assert_eq!(out, expected);
}

#[test]
fn replace_str_same() {
    let out = render_to_string(&replace(".abc. defs aaab...aba fda", "ab", "ab"));
    assert_eq!(out, ".abc. defs aaab...aba fda".replace("ab", "ab"));
}

#[test]
fn replace_1_letter_str() {
    let out = render_to_string(&replace(".abc. defs aaab...aba fda", "a", "bc"));
    assert_eq!(out, ".abc. defs aaab...aba fda".replace("a", "bc"));
}

#[test]
fn replace_2_letter_str() {
    let out = render_to_string(&replace(".abc. defs aaab...aba fda", "ab", "bc"));
    assert_eq!(out, ".abc. defs aaab...aba fda".replace("ab", "bc"));
}

#[test]
fn replace_5_letter_str() {
    let out = render_to_string(&replace("abcdfewdabdwfeabcd", "abcdf", "fdcba"));
    assert_eq!(out, "abcdfewdabdwfeabcd".replace("abcdf", "fdcba"));
}

#[test]
fn replace_str_with_backtrack() {
    let out = render_to_string(&replace(
        "aaafafaffafafaaaaaaafaaaafaaaffaaaaf",
        "aaaaf",
        "123",
    ));
    assert_eq!(
        out,
        "aaafafaffafafaaaaaaafaaaafaaaffaaaaf".replace("aaaaf", "123")
    );
}

#[test]
fn replace_str_with_backtrack_2() {
    let out = render_to_string(&replace("abacaababababccabcaabbaccab", "ababc", "123"));
    assert_eq!(out, "abacaababababccabcaabbaccab".replace("ababc", "123"));
}

#[test]
fn replace_empty_str() {
    let out = render_to_string(&replace("abcdefg", "", "."));
    assert_eq!(out, "abcdefg".replace("", "."));
}

#[test]
fn replace_str_complex() {
    let pieces = [
        format!("{}", 13.25),
        " . abc2".to_string(),
        format!("{:?}", "a.b"),
        " ".to_string(),
        format!("{}", ".."),
        "2".to_string(),
    ];
    let chunks: Vec<&str> = pieces.iter().map(|piece| piece.as_str()).collect();
    let out = render_to_string(&replace(join(&chunks, ""), ".2", "foo"));
    let expected = format!("{} . abc2{:?} {}2", 13.25, "a.b", "..").replace(".2", "foo");

    assert_eq!(out, expected);
    assert_eq!(out, "13foo5 . abc2\"a.b\" .foo");
}

/// All the ways to cut `text` into pieces of at most `most` characters, each
/// piece a string of its own; pieces may be empty where `gaps` is set.
fn cuttings(text: &str, most: usize, gaps: bool) -> Vec<Vec<String>> {
    let chars: Vec<char> = text.chars().collect();
    let mut all = Vec::new();
    for size in 1..=most {
        let mut pieces = Vec::new();
        for chunk in chars.chunks(size) {
            if gaps {
                pieces.push(String::new());
            }
            pieces.push(chunk.iter().collect::<String>());
        }
        all.push(pieces);
    }
    for at in 0..=chars.len() {
        all.push(vec![
            chars[..at].iter().collect::<String>(),
            chars[at..].iter().collect::<String>(),
        ]);
    }
    all
}

fn stream(pieces: &[String], pattern: &str, replacement: &str) -> String {
    let mut session = StrReplacer::new(String::new(), pattern, replacement);
    for piece in pieces {
        assert_eq!(session.write_str(piece), Ok(()));
    }
    let (out, done) = session.finish();
    assert_eq!(done, Ok(()));
    out
}

const TEXTS: [&str; 9] = [
    "",
    "a",
    "abcdfewdabdwfeabcd",
    "aaafafaffafafaaaaaaafaaaafaaaffaaaaf",
    "abacaababababccabcaabbaccab",
    ".abc. defs aaab...aba fda",
    "aaaaaaaaa",
    "état été étéé ééét 日本語日本日本語本語",
    "x😀😀y😀z😀😀😀",
];

const PATTERNS: [&str; 14] = [
    "a", "ab", "aa", "aaa", "aaaaf", "ababc", "abcdf", "aab", "é", "ét", "éé", "日本語", "😀😀",
    "本語日",
];

#[test]
fn chunk_boundaries_do_not_matter() {
    for text in TEXTS {
        for pattern in PATTERNS {
            for replacement in ["", "-", "123", pattern, "aa", "é日"] {
                let whole = text.replace(pattern, replacement);
                for pieces in cuttings(text, 4, false) {
                    assert_eq!(
                        stream(&pieces, pattern, replacement),
                        whole,
                        "{:?} in {:?} by {:?}",
                        pattern,
                        pieces,
                        replacement
                    );
                }
                for pieces in cuttings(text, 2, true) {
                    assert_eq!(stream(&pieces, pattern, replacement), whole);
                }
            }
        }
    }
}

#[test]
fn rendering_in_chunks_is_rendering_at_once() {
    for text in TEXTS {
        for pattern in PATTERNS {
            let whole = text.replace(pattern, "<>");
            assert_eq!(render_to_string(&replace(text, pattern, "<>")), whole);
            for pieces in cuttings(text, 3, false) {
                let chunks: Vec<&str> = pieces.iter().map(|piece| piece.as_str()).collect();
                assert_eq!(
                    render_to_string(&replace(join(&chunks, ""), pattern, "<>")),
                    whole
                );
            }
        }
    }
}

#[test]
fn empty_pattern_puts_replacement_at_every_gap() {
    assert_eq!(render_to_string(&replace("abcdefg", "", ".")), ".a.b.c.d.e.f.g.");
    assert_eq!(render_to_string(&replace("", "", "xy")), "xy");
    assert_eq!(render_to_string(&replace("é日😀", "", "--")), "--é--日--😀--");
    assert_eq!(render_to_string(&replace("ab", "", "")), "ab");
    for text in TEXTS {
        let whole = text.replace("", "+");
        assert_eq!(whole.chars().count(), 2 * text.chars().count() + 1);
        for pieces in cuttings(text, 3, true) {
            let mut session = EmptyReplacer::new(String::new(), "+");
            for piece in &pieces {
                assert_eq!(session.write_str(piece), Ok(()));
            }
            let (out, done) = session.finish();
            assert_eq!(done, Ok(()));
            assert_eq!(out, whole);
        }
    }
}

#[test]
fn pattern_as_replacement_changes_nothing() {
    for text in TEXTS {
        for pattern in PATTERNS {
            assert_eq!(render_to_string(&replace(text, pattern, pattern)), text);
            for pieces in cuttings(text, 2, false) {
                assert_eq!(stream(&pieces, pattern, pattern), text);
            }
        }
        assert_eq!(render_to_string(&replace(text, "", "")), text);
        assert_eq!(render_to_string(&replace(text, 'a', "a")), text);
    }
}

#[test]
fn replacement_is_not_scanned_again() {
    assert_eq!(render_to_string(&replace("aXa", "X", "aXa")), "aaXaa");
    assert_eq!(render_to_string(&replace("abab", "ab", "abab")), "abababab");
    assert_eq!(render_to_string(&replace("aaa", "aa", "a")), "aa");
    assert_eq!(render_to_string(&replace("aaaa", "aa", "b")), "bb");
    assert_eq!(render_to_string(&replace("aaa", "aa", "b")), "ba");
}

#[test]
fn one_character_goes_the_same_either_way() {
    for text in TEXTS {
        for pattern in ['a', 'f', '.', 'é', '語', '😀', 'q'] {
            let as_text = pattern.to_string();
            let whole = text.replace(pattern, "[]");
            assert_eq!(render_to_string(&replace(text, pattern, "[]")), whole);
            assert_eq!(render_to_string(&replace(text, as_text.as_str(), "[]")), whole);
            for pieces in cuttings(text, 3, true) {
                assert_eq!(stream(&pieces, as_text.as_str(), "[]"), whole);
                let mut session = CharReplacer::new(String::new(), pattern, "[]");
                for piece in &pieces {
                    assert_eq!(session.write_str(piece), Ok(()));
                }
                assert_eq!(session.finish(), whole);
            }
        }
    }
}

#[test]
fn unfinished_match_at_the_end_is_kept() {
    assert_eq!(render_to_string(&replace("abcdfewdabdwfeabcd", "abcdf", "-")), "-ewdabdwfeabcd");
    assert_eq!(render_to_string(&replace("xyzabcd", "abcdf", "-")), "xyzabcd");
    assert_eq!(render_to_string(&replace("abcd", "abcdf", "-")), "abcd");
    assert_eq!(stream(&["xyzab".to_string(), "cd".to_string()], "abcdf", "-"), "xyzabcd");
    assert_eq!(render_to_string(&replace("日本", "日本語", "-")), "日本");
    assert_eq!(render_to_string(&replace("aaaa", "aaaaf", "123")), "aaaa");

    let mut session = StrReplacer::new(String::new(), "abcdf", "-");
    assert_eq!(session.write_str("..abcd"), Ok(()));
    assert_eq!(session.withheld_len(), 4);
    let (out, done) = session.finish();
    assert_eq!(done, Ok(()));
    assert_eq!(out, "..abcd");
}

#[test]
fn held_back_bytes_follow_the_text() {
    let mut session = StrReplacer::new(String::new(), "aaaaf", "123");
    assert_eq!(session.withheld_len(), 0);
    assert_eq!(session.backoff(), 0);
    assert_eq!(session.write_str("xa"), Ok(()));
    assert_eq!(session.withheld_len(), 1);
    assert_eq!(session.backoff(), 0);
    assert_eq!(session.write_str("aa"), Ok(()));
    assert_eq!(session.withheld_len(), 3);
    assert_eq!(session.backoff(), 2);
    assert_eq!(session.write_str("aaa"), Ok(()));
    assert_eq!(session.withheld_len(), 4);
    assert_eq!(session.backoff(), 3);
    assert_eq!(session.write_str("f"), Ok(()));
    assert_eq!(session.withheld_len(), 0);
    let (out, done) = session.finish();
    assert_eq!(done, Ok(()));
    assert_eq!(out, "xaa123");
}

fn backoff_after(pattern: &str, text: &str) -> (usize, usize) {
    let mut session = StrReplacer::new(String::new(), pattern, "");
    assert_eq!(session.write_str(text), Ok(()));
    (session.withheld_len(), session.backoff())
}

#[test]
fn backoff_is_the_longest_border() {
    assert_eq!(backoff_after("ababc", "abab"), (4, 2));
    assert_eq!(backoff_after("ababc", "aba"), (3, 1));
    assert_eq!(backoff_after("ababc", "ab"), (2, 0));
    assert_eq!(backoff_after("abcab!", "abcab"), (5, 2));
    assert_eq!(backoff_after("abcdf", "abcd"), (4, 0));
    assert_eq!(backoff_after("aab", "aa"), (2, 1));
    assert_eq!(backoff_after("éé!", "éé"), (4, 2));
    assert_eq!(backoff_after("é!", "é"), (2, 0));
    assert_eq!(backoff_after("日本日本語", "日本日本"), (12, 6));
    assert_eq!(backoff_after("日本日本語", "日本日"), (9, 3));
    // U+00E9 is C3 A9 and U+00C3 is C3 83: the bytes of one character never
    // count as a border of another.
    assert_eq!(backoff_after("Ã©Ã!", "Ã©Ã"), (6, 2));
}

#[test]
fn patterns_are_told_apart_by_their_first_two_characters() {
    assert_eq!(classify(""), PatternKind::Empty);
    assert_eq!(classify("a"), PatternKind::SingleChar('a'));
    assert_eq!(classify("é"), PatternKind::SingleChar('é'));
    assert_eq!(classify("😀"), PatternKind::SingleChar('😀'));
    assert_eq!(classify("ab"), PatternKind::MultiChar);
    assert_eq!(classify("éa"), PatternKind::MultiChar);
    assert_eq!(classify("aé"), PatternKind::MultiChar);
    assert_eq!(classify("日本語"), PatternKind::MultiChar);
}

#[test]
fn many_byte_characters_are_replaced_whole() {
    assert_eq!(render_to_string(&replace("naïve café", 'é', "e")), "naïve cafe");
    assert_eq!(render_to_string(&replace("naïve café", "ï", "i")), "naive café");
    assert_eq!(render_to_string(&replace("日本語の本", "本", "book")), "日book語のbook");
    assert_eq!(render_to_string(&replace("😀a😀", '😀', ":)")), ":)a:)");
    assert_eq!(render_to_string(&replace("éèéè", "éè", "x")), "xx");
    assert_eq!(render_to_string(&replace("ééè", "éè", "x")), "éx");
}

#[test]
fn replacers_nest() {
    let inner = replace("a-b-c", '-', "+");
    assert_eq!(render_to_string(&replace(inner, "+b+", "")), "ac");
    let words = ["one", "two", "three"];
    assert_eq!(render_to_string(&replace(join(&words, ", "), "o, t", "O-T")), "one, twO-Three");
    let mut outer = StrReplacer::new(String::new(), "xy", "!");
    assert_eq!(outer.write_str("ax"), Ok(()));
    let mut session = CharReplacer::new(outer, '.', "y");
    assert_eq!(session.write_str(".x"), Ok(()));
    assert_eq!(session.write_str("."), Ok(()));
    let (out, done) = session.finish().finish();
    assert_eq!(done, Ok(()));
    assert_eq!(out, "a!!");
}

#[test]
fn inspection_text_is_replaced_too() {
    assert_eq!(debug_to_string(&replace("a\"b", "\\\"", "'")), "\"a'b\"");
    assert_eq!(debug_to_string(&replace("tab\there", 't', "T")), "\"Tab\\There\"");
    assert_eq!(debug_to_string(&replace("x", "", "_")), "_\"_x_\"_");
    assert_eq!(debug_to_string(&"a\nb"), "\"a\\nb\"");
}

#[derive(Debug)]
struct FooBar {
    a: String,
}

impl RenderDebug for FooBar {
    fn render_debug<W: Sink>(&self, out: W) -> (W, Result<(), WriteError>) {
        let mut out = out;
        let shown = format!("{:?}", self);
        for piece in shown.split_inclusive(' ') {
            if let Err(e) = out.write_str(piece) {
                return (out, Err(e));
            }
        }
        (out, Ok(()))
    }
}

#[test]
fn a_type_of_the_caller_is_replaced_in() {
    let value = FooBar { a: "Bar".to_string() };
    assert_eq!(value.a, "Bar");
    assert_eq!(
        debug_to_string(&replace(value, "Bar", "Biz")),
        "FooBiz { a: \"Biz\" }"
    );
}

#[test]
fn a_full_sink_fails_the_rendering() {
    let (out, done) = replace("zzab", "ab", "X").render(Limited::new(2));
    assert_eq!(done, Err(WriteError));
    assert_eq!(out.as_str(), "zz");

    let (out, done) = replace("zzab", "ab", "X").render(Limited::new(3));
    assert_eq!(done, Ok(()));
    assert_eq!(out.as_str(), "zzX");

    let (out, done) = replace("a.b", '.', "--").render(Limited::new(3));
    assert_eq!(done, Err(WriteError));
    assert_eq!(out.as_str(), "a--");

    let (out, done) = replace("a.b", '.', "--").render(Limited::new(2));
    assert_eq!(done, Err(WriteError));
    assert_eq!(out.as_str(), "a");

    let (out, done) = replace("ab", "", "é").render(Limited::new(7));
    assert_eq!(done, Err(WriteError));
    assert_eq!(out.into_string(), "éaéb");

    let (out, done) = replace("ab", "", "é").render(Limited::new(8));
    assert_eq!(done, Ok(()));
    assert_eq!(out.into_string(), "éaébé");
}

#[test]
fn a_limited_sink_counts_bytes() {
    let mut sink = Limited::new(4);
    assert_eq!(sink.write_str("é"), Ok(()));
    assert_eq!(sink.write_str("日"), Err(WriteError));
    assert_eq!(sink.as_str(), "é");
    assert_eq!(sink.write_str("ab"), Ok(()));
    assert_eq!(sink.write_str(""), Ok(()));
    assert_eq!(sink.write_str("c"), Err(WriteError));
    assert_eq!(sink.as_str(), "éab");
    let mut none = Limited::new(0);
    assert_eq!(none.write_str(""), Ok(()));
    assert_eq!(none.write_str("a"), Err(WriteError));
}

/// A sink that keeps the chunks apart and refuses the write whose number,
/// from zero, is `refuse`.
struct Chunks {
    got: Vec<String>,
    calls: usize,
    refuse: usize,
}

impl Chunks {
    fn new(refuse: usize) -> Self {
        Chunks { got: Vec::new(), calls: 0, refuse }
    }
}

impl Sink for Chunks {
    type Setup = ();

    fn write_str(&mut self, s: &str) -> Result<(), WriteError> {
        let call = self.calls;
        self.calls += 1;
        if call == self.refuse {
            return Err(WriteError);
        }
        self.got.push(s.to_string());
        Ok(())
    }
}

#[test]
fn nothing_is_written_after_a_failure() {
    let (out, done) = replace("xy", "", "-").render(Chunks::new(2));
    assert_eq!(done, Err(WriteError));
    assert_eq!(out.got, ["-", "x"]);
    assert_eq!(out.calls, 3);

    // "z" goes out, "a" is held back and never flushed: the write of the
    // replacement is the one that fails.
    let words = ["za", "b!"];
    let (out, done) = replace(join(&words, ""), "ab", "X").render(Chunks::new(1));
    assert_eq!(done, Err(WriteError));
    assert_eq!(out.got, ["z"]);
    assert_eq!(out.calls, 2);

    // The rendering ends with "ab" held back; the flush at the end fails.
    let (out, done) = replace("zab", "abc", "X").render(Chunks::new(1));
    assert_eq!(done, Err(WriteError));
    assert_eq!(out.got, ["z"]);
    assert_eq!(out.calls, 2);

    let (out, done) = replace("zab", "abc", "X").render(Chunks::new(9));
    assert_eq!(done, Ok(()));
    assert_eq!(out.got, ["z", "ab"]);
}

#[test]
fn text_goes_on_as_early_as_it_is_decided() {
    let mut session = StrReplacer::new(Chunks::new(99), "abc", "X");
    assert_eq!(session.write_str("12ab"), Ok(()));
    assert_eq!(session.write_str("c3"), Ok(()));
    assert_eq!(session.write_str("ab"), Ok(()));
    assert_eq!(session.write_str("ab"), Ok(()));
    let (out, done) = session.finish();
    assert_eq!(done, Ok(()));
    assert_eq!(out.got.concat(), "12X3abab");
    assert_eq!(out.got, ["12", "X", "3", "", "ab", "", "ab"]);
}

#[test]
fn an_abandoned_session_keeps_what_it_held() {
    let mut session = StrReplacer::new(String::new(), "abc", "X");
    assert_eq!(session.write_str("zab"), Ok(()));
    assert_eq!(session.abandon(), "z");
    let mut session = EmptyReplacer::new(String::new(), "-");
    assert_eq!(session.write_str("a"), Ok(()));
    assert_eq!(session.abandon(), "-a");
    let mut session = CharReplacer::new(String::new(), 'a', "-");
    assert_eq!(session.write_str("bab"), Ok(()));
    assert_eq!(session.abandon(), "b-b");
}

/// The bytes of the longest beginning of `pattern` that `text` ends with
/// behind its last replaced occurrence, found by trying.
fn candidate(text: &str, pattern: &str) -> usize {
    let t: Vec<char> = text.chars().collect();
    let p: Vec<char> = pattern.chars().collect();
    let mut at = 0;
    while t.len() - at >= p.len() {
        if t[at..at + p.len()] == p[..] {
            at += p.len();
        } else {
            at += 1;
        }
    }
    let rest = &t[at..];
    let mut k = rest.len();
    while rest[rest.len() - k..] != p[..k] {
        k -= 1;
    }
    p[..k].iter().map(|c| c.len_utf8()).sum()
}

#[test]
fn what_is_held_back_is_the_candidate_the_text_ends_with() {
    for text in TEXTS {
        for pattern in PATTERNS {
            let held = candidate(text, pattern);
            let whole = text.replace(pattern, "<->");
            for pieces in cuttings(text, 3, true) {
                let mut session = StrReplacer::new(String::new(), pattern, "<->");
                let mut so_far = String::new();
                for piece in &pieces {
                    assert_eq!(session.write_str(piece), Ok(()));
                    so_far.push_str(piece);
                    assert_eq!(session.withheld_len(), candidate(&so_far, pattern));
                }
                assert_eq!(session.withheld_len(), held);
                let passed = session.abandon();
                assert_eq!(format!("{}{}", passed, &pattern[..held]), whole);
            }
        }
    }
}
