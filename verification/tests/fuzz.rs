//! The engine reads untrusted bytes with code written by hand, and hostile
//! input must be answered, never panicked on: a panic crossing into a host
//! runtime is a bug. A seeded generator mutates realistic inputs and every
//! entry point is run on each; a panic fails the test that found it.

use seam_core::{parse, validate, Format, Limits};

/// Deterministic and tiny, so a seed reproduces a failure exactly.
struct Rng(u64);

impl Rng {
    fn next(&mut self) -> u64 {
        let mut x = self.0;
        x ^= x >> 12;
        x ^= x << 25;
        x ^= x >> 27;
        self.0 = x;
        x.wrapping_mul(0x2545_F491_4F6C_DD1D)
    }

    fn below(&mut self, n: usize) -> usize {
        if n == 0 {
            0
        } else {
            (self.next() % n as u64) as usize
        }
    }

    fn pick<'a, T>(&mut self, xs: &'a [T]) -> &'a T {
        &xs[self.below(xs.len())]
    }
}

const FRAGMENTS: &[&str] = &[
    "{", "}", "[", "]", ":", ",", "\"", "\\", "\\u", "\\ud800", "\\udc00", "\\uD83D\\uDE00", "-",
    "+", ".", "e", "E", "0", "00", "1e999", "-0", "9007199254740993", "18446744073709551616",
    "true", "false", "null", "NaN", "Infinity", " ", "\t", "\n", "\r", "\u{0}", "\u{7f}", "\u{85}",
    "é", "日本語", "🙂", "\u{feff}", "schema", "union", "optional", "enum", "@tag", "@format",
    "@min_len", "@range", "u64", "String", "Date", "DateTime", "?", "(", ")", "..=", "//",
];

fn seeds() -> Vec<String> {
    vec![
        String::new(),
        "{}".into(),
        "[]".into(),
        "null".into(),
        "\"\"".into(),
        "{\"a\":1}".into(),
        "[[[[[[[[[[]]]]]]]]]]".into(),
        "{\"a\":{\"b\":{\"c\":[1,2,3]}}}".into(),
        "\"\\ud800\"".into(),
        "1e309".into(),
        "-9223372036854775809".into(),
        "schema A { x: u8 }".into(),
        "schema A { x: String @min_len(1) @format(email) }".into(),
        "schema A { x: optional [String?]? }".into(),
        "union U @tag(\"t\") { a: A }\nschema A { x: u8 }".into(),
        "schema A { x: enum { a, b } }".into(),
        "schema User {\n  id: u64\n  name: String @min_len(3) @max_len(64)\n  plan: enum { free, pro, enterprise }\n  tags: optional [String] @max_items(10)\n  nickname: String?\n  bio: optional String\n  avatar: optional String?\n  last_seen: optional DateTime\n  signup_date: optional Date\n}\n".into(),
    ]
}

fn mutate(rng: &mut Rng, input: &str) -> String {
    let mut bytes = input.as_bytes().to_vec();

    for _ in 0..1 + rng.below(4) {
        match rng.below(8) {
            0 => {
                let at = rng.below(bytes.len() + 1);
                let frag = rng.pick(FRAGMENTS).as_bytes();
                bytes.splice(at..at, frag.iter().copied());
            }
            1 => {
                let keep = rng.below(bytes.len() + 1);
                bytes.truncate(keep);
            }
            2 => {
                if !bytes.is_empty() {
                    let at = rng.below(bytes.len());
                    bytes[at] ^= 1 << rng.below(8);
                }
            }
            3 => {
                if !bytes.is_empty() {
                    let at = rng.below(bytes.len());
                    let end = (at + 1 + rng.below(8)).min(bytes.len());
                    bytes.drain(at..end);
                }
            }
            4 => {
                if !bytes.is_empty() && bytes.len() < 4096 {
                    let at = rng.below(bytes.len());
                    let end = (at + 1 + rng.below(32)).min(bytes.len());
                    let run: Vec<u8> = bytes[at..end].to_vec();
                    bytes.splice(at..at, run);
                }
            }
            5 => {
                let at = rng.below(bytes.len() + 1);
                bytes.insert(at, rng.below(256) as u8);
            }
            6 => {
                let n = 1 + rng.below(400);
                let open = rng.below(2) == 0;
                let (a, b) = if open { (b'[', b']') } else { (b'{', b'}') };
                let mut deep = vec![a; n];
                deep.extend(std::iter::repeat(b).take(n));
                bytes = deep;
            }
            _ => {
                let n = 1 + rng.below(2048);
                let b = *rng.pick(&[b'a', b'0', b'\\', b'"', b' ', 0xff]);
                let at = rng.below(bytes.len() + 1);
                bytes.splice(at..at, std::iter::repeat(b).take(n));
            }
        }
    }

    String::from_utf8_lossy(&bytes).into_owned()
}

/// Every entry point, against one input.
fn exercise(input: &str) {
    let bytes = input.as_bytes();
    let schema = parse(input).ok();
    for limits in [
        Limits::default(),
        Limits { max_depth: 2, max_items: 2, max_string_bytes: 4, max_object_keys: 2 },
        Limits { max_depth: usize::MAX, ..Limits::default() },
    ] {
        let _ = seam_core::json::parse(bytes, limits);
    }
    if let Some(schema) = schema {
        if let Ok(doc) = seam_core::json::parse(bytes, Limits::default()) {
            let names: Vec<String> = schema
                .types
                .iter()
                .map(|t| t.name.clone())
                .chain(schema.unions.iter().map(|u| u.name.clone()))
                .collect();
            for name in &names {
                let _ = validate(&schema, name, &doc, Limits::default());
            }
            let _ = validate(&schema, "\u{0}nope", &doc, Limits::default());
        }
    }
    for f in Format::ALL {
        let _ = f.matches(input);
    }
}

#[test]
fn known_bad_inputs_stay_fixed() {
    let cases: &[&str] = &[
        "",
        "[",
        "{",
        "\"",
        "\\",
        "\"\\u",
        "\"\\ud800\"",
        "\"\\udc00\"",
        "-",
        "1e",
        "1e+",
        "0123",
        "{\"a\"",
        "{\"a\":",
        "{\"a\":}",
        "[,]",
        "[1,]",
        "schema",
        "schema A",
        "schema A {",
        "schema A { x",
        "schema A { x:",
        "schema A { x: }",
        "union",
        "union U",
        "union U @tag",
        "union U @tag(",
        "union U @tag()",
        "schema A { x: String @format( }",
        "schema A { x: String @min_len( }",
        "schema A { x: String @range(1..=) }",
        "é",
        "\u{feff}schema A { x: u8 }",
    ];
    for case in cases {
        exercise(case);
    }
}

#[test]
fn no_input_makes_the_engine_panic() {
    let seeds = seeds();
    for i in 0..2_000u64 {
        let mut rng = Rng(0x5EA3_0000_0000_0001 ^ i);
        let seed_input = rng.pick(&seeds).clone();
        let input = mutate(&mut rng, &seed_input);
        exercise(&input);
    }
}

#[test]
fn the_generator_reaches_past_the_first_byte() {
    let seeds = seeds();
    let (mut json_ok, mut schema_ok, mut nonempty) = (0usize, 0usize, 0usize);
    let total = 20_000;

    for i in 0..total {
        let mut rng = Rng(0x9E37_79B9_7F4A_7C15 ^ i as u64);
        let seed_input = rng.pick(&seeds).clone();
        let input = mutate(&mut rng, &seed_input);

        if !input.is_empty() {
            nonempty += 1;
        }
        if seam_core::json::parse(input.as_bytes(), Limits::default()).is_ok() {
            json_ok += 1;
        }
        if parse(&input).is_ok() {
            schema_ok += 1;
        }
    }

    assert!(nonempty > total / 2, "most inputs were empty: {nonempty}/{total}");
    assert!(json_ok > total / 100, "almost nothing parsed as JSON: {json_ok}/{total}");
    assert!(schema_ok > total / 1000, "almost nothing parsed as a schema: {schema_ok}/{total}");
}
