use burn_e5q::embed::batch::{pack_batches, pad_rows};
use burn_e5q::embed::model::{tables_fit, TextRules};
use burn_e5q::embed::plan::{
    place_all, place_batch, prefix_texts, CountMismatch, DEFAULT_MAX_BATCH_TOKENS,
    DEFAULT_MAX_LENGTH, E5_PASSAGE_PREFIX, E5_QUERY_PREFIX, TEXT_EMB_DIM,
};
use burn_e5q::embed::text::{chars_of, is_white, trim};
use burn_e5q::embed::tokenizer::{
    finish_plain, make_row, pad_token_id, special_ids, split_added, E5Tokenizer, Segment,
    SpecialIds, TokenizerError,
};
use burn_e5q::embed::wire::{find_last, read_fields, Wire};

fn varint(mut v: u64, out: &mut Vec<u8>) {
    while v >= 0x80 {
        out.push((v as u8 & 0x7f) | 0x80);
        v >>= 7;
    }
    out.push(v as u8);
}

fn field(number: u64, body: &[u8], out: &mut Vec<u8>) {
    varint(number << 3 | 2, out);
    varint(body.len() as u64, out);
    out.extend_from_slice(body);
}

/// A serialized vocabulary entry: normal 1, unknown 2, control 3.
fn piece(text: &str, score: f32, kind: u64, model: &mut Vec<u8>) {
    let mut body = Vec::new();
    field(1, text.as_bytes(), &mut body);
    varint(2 << 3 | 5, &mut body);
    body.extend_from_slice(&score.to_le_bytes());
    varint(3 << 3, &mut body);
    varint(kind, &mut body);
    field(1, &body, model);
}

fn vocabulary(bos: bool, eos: bool) -> Vec<u8> {
    let mut m = Vec::new();
    piece("<unk>", 0.0, 2, &mut m);
    piece("<s>", 0.0, if bos { 3 } else { 1 }, &mut m);
    piece("</s>", 0.0, if eos { 3 } else { 1 }, &mut m);
    piece("\u{2581}hello", -1.0, 1, &mut m);
    piece("\u{2581}world", -1.0, 1, &mut m);
    piece("\u{2581}", -5.0, 1, &mut m);
    piece("\u{2581}passage:", -1.0, 1, &mut m);
    piece("ello", -2.0, 1, &mut m);
    m
}

/// A table with these units and, behind them, these bytes.
fn table(units: &[u32; 256], rest: &[u8]) -> Vec<u8> {
    let mut table = Vec::new();
    table.extend_from_slice(&1024u32.to_le_bytes());
    for u in units {
        table.extend_from_slice(&u.to_le_bytes());
    }
    table.extend_from_slice(rest);
    table
}

fn add_table(number: u64, table: &[u8], m: &mut Vec<u8>) {
    let mut spec = Vec::new();
    field(2, table, &mut spec);
    field(number, &spec, m);
}

/// A unit with this label that leads on to `next`, `at` being its own place.
fn unit(label: u8, at: u32, next: u32, leaf: bool) -> u32 {
    label as u32 | (leaf as u32) << 8 | (at ^ next) << 10
}

/// A normalizer that turns `x` into a byte that is no text.
fn broken_normalizer(m: &mut Vec<u8>) {
    let mut units = [0u32; 256];
    units[0x78] = unit(0x78, 0x78, 1, true);
    units[1] = 1 << 31;
    add_table(3, &table(&units, &[0xff, 0]), m);
}

const CONFIG: &[u8] = br#"{"model_type": "bert", "pad_token_id": 1}"#;

fn tokenizer(max_length: usize) -> E5Tokenizer {
    E5Tokenizer::load(&vocabulary(true, true), CONFIG, max_length).unwrap()
}

#[test]
fn ids_are_those_of_the_encoder() {
    let t = tokenizer(512);
    assert_eq!(t.pad_id(), 1);
    assert_eq!(t.ids(), SpecialIds { bos: 1, eos: 2, unk: 0 });
    assert_eq!(t.encode_plain("hello").unwrap(), vec![4]);
    assert_eq!(t.encode_plain("hello world").unwrap(), vec![4, 5]);
    // Unknown characters are piece 0, which is id 3.
    assert_eq!(t.encode_plain("hello zq").unwrap(), vec![4, 6, 3]);
    assert_eq!(t.encode_plain("").unwrap(), Vec::<i64>::new());
}

#[test]
fn trailing_space_is_kept_as_a_piece() {
    let t = tokenizer(512);
    assert_eq!(t.encode_plain("hello ").unwrap(), vec![4, 6]);
    assert_eq!(t.encode_plain("hello\u{3000}").unwrap().last(), Some(&6));
    assert_eq!(t.encode_plain(" ").unwrap(), vec![6]);
    let sp = SpecialIds { bos: 1, eos: 2, unk: 0 };
    // Already there: not added again.
    assert_eq!(finish_plain(&sp, &vec![3, 5], "hello "), vec![4, 6]);
    assert_eq!(finish_plain(&sp, &vec![3, 5], "hello"), vec![4, 6]);
    assert_eq!(finish_plain(&sp, &vec![0, 1, 2, 9], "x"), vec![3, 0, 2, 10]);
}

#[test]
fn added_tokens_stand_for_themselves() {
    let t = tokenizer(512);
    assert_eq!(t.encode_text("hello<mask>world").unwrap(), vec![4, 250001, 5]);
    assert_eq!(t.encode_text("<s></s><pad><unk>").unwrap(), vec![0, 2, 1, 3]);
    assert_eq!(t.encode_text("hello <mask>").unwrap(), vec![4, 6, 250001]);
    assert_eq!(t.encode_text("").unwrap(), Vec::<i64>::new());
    assert!(matches!(
        split_added("ab<s>c")[..],
        [Segment::Plain(0, 2), Segment::Added(0), Segment::Plain(5, 6)]
    ));
    assert!(matches!(split_added("<mas"), ref v if matches!(v[..], [Segment::Plain(0, 4)])));
    assert!(split_added("").is_empty());
    // Counted in characters, not bytes.
    assert!(matches!(
        split_added("\u{591c}<pad>\u{9a91}")[..],
        [Segment::Plain(0, 1), Segment::Added(1), Segment::Plain(6, 7)]
    ));
}

#[test]
fn rows_begin_and_end_and_are_cut() {
    let t = tokenizer(512);
    let rows = t.encode_rows(&["hello", "hello world", ""]).unwrap();
    assert_eq!(rows, vec![vec![0, 4, 2], vec![0, 4, 5, 2], vec![0, 2]]);
    let short = tokenizer(3);
    assert_eq!(short.encode_rows(&["hello world"]).unwrap(), vec![vec![0, 4, 2]]);
    let sp = SpecialIds { bos: 1, eos: 2, unk: 0 };
    assert_eq!(make_row(&sp, &vec![7, 8, 9], 4), vec![0, 7, 8, 2]);
    assert_eq!(make_row(&sp, &vec![7, 8, 9], 0), vec![0, 2]);
}

#[test]
fn prefixed_texts_are_trimmed() {
    let t = tokenizer(512);
    assert_eq!(
        t.encode_prefixed(E5_PASSAGE_PREFIX, "  hello \n").unwrap(),
        vec![0, 7, 4, 2]
    );
    assert_eq!(t.encode_prefixed("", "hello ").unwrap(), vec![0, 4, 2]);
    assert_eq!(E5_QUERY_PREFIX, "query: ");
    assert_eq!((TEXT_EMB_DIM, DEFAULT_MAX_LENGTH, DEFAULT_MAX_BATCH_TOKENS), (384, 512, 4096));
}

#[test]
fn loading_can_fail() {
    let good = vocabulary(true, true);
    assert!(matches!(
        E5Tokenizer::load(&good, b"{", 512),
        Err(TokenizerError::Config(_))
    ));
    // The configuration is looked at first.
    assert!(matches!(
        E5Tokenizer::load(&[0xff], b"", 512),
        Err(TokenizerError::Config(_))
    ));
    assert!(matches!(
        E5Tokenizer::load(&[0xff], CONFIG, 512),
        Err(TokenizerError::Model(_))
    ));
    assert!(matches!(
        E5Tokenizer::load(&vocabulary(false, false), CONFIG, 512),
        Err(TokenizerError::MissingBos)
    ));
    assert!(matches!(
        E5Tokenizer::load(&vocabulary(true, false), CONFIG, 512),
        Err(TokenizerError::MissingEos)
    ));
    assert!(matches!(special_ids(None, Some(2), 0), Err(TokenizerError::MissingBos)));
    assert!(matches!(special_ids(Some(1), None, 0), Err(TokenizerError::MissingEos)));
    assert_eq!(
        special_ids(Some(1), Some(2), 0).unwrap(),
        SpecialIds { bos: 1, eos: 2, unk: 0 }
    );
}

#[test]
fn encoding_can_fail() {
    let mut m = vocabulary(true, true);
    broken_normalizer(&mut m);
    let t = E5Tokenizer::load(&m, CONFIG, 512).unwrap();
    assert_eq!(t.encode_rows(&["hello"]).unwrap(), vec![vec![0, 4, 2]]);
    assert!(matches!(t.encode_plain("x"), Err(TokenizerError::Encode(_))));
    assert!(matches!(t.encode_text("<s>x"), Err(TokenizerError::Encode(_))));
    assert!(matches!(t.encode_rows(&["hello", "x"]), Err(TokenizerError::Encode(_))));
    assert!(matches!(t.encode_prefixed("", "x"), Err(TokenizerError::Encode(_))));
}

#[test]
fn short_tables_are_refused() {
    for number in [3, 5] {
        for len in [1025usize, 1026, 1027, 1028, 1029, 1030] {
            let mut t = table(&[0; 256], &[0, 0]);
            t.truncate(len);
            let mut m = vocabulary(true, true);
            add_table(number, &t, &mut m);
            let got = E5Tokenizer::load(&m, CONFIG, 512);
            match len {
                // Shorter than the size that it gives and the size itself.
                1025..=1027 => assert!(matches!(got, Err(TokenizerError::Table))),
                // Nothing behind the trie.
                1028 => assert!(matches!(got, Err(TokenizerError::Model(_)))),
                _ => assert!(got.is_ok()),
            }
            assert_eq!(tables_fit(&m), len >= 1028);
            // A later table counts instead.
            add_table(number, &table(&[0; 256], &[0]), &mut m);
            assert!(E5Tokenizer::load(&m, CONFIG, 512).is_ok());
        }
    }
}

#[test]
fn cuts_inside_characters_are_refused() {
    // The bytes of e with an acute accent lead to units 0xc3 and 0xa8, and
    // what their keys stand for is in unit 1.
    let build = |first: bool, second: bool, value: u32| {
        let mut units = [0u32; 256];
        units[0xc3] = unit(0xc3, 0xc3, 1, first);
        units[0xa8] = unit(0xa9, 0xa8, 1, second);
        units[1] = 1 << 31 | value;
        let mut m = vocabulary(true, true);
        add_table(3, &table(&units, b"e\0"), &mut m);
        m
    };
    let plain = |m: &[u8], text: &str| {
        let got = E5Tokenizer::load(m, CONFIG, 512).unwrap().encode_plain(text);
        assert_eq!(TextRules::read(m).cuts_well(text), !matches!(got, Err(TokenizerError::Cut)));
        got
    };
    let text = "h\u{e9}llo";
    for first in [false, true] {
        for second in [false, true] {
            let m = build(first, second, 0);
            assert_eq!(plain(&m, "hello").unwrap(), vec![4]);
            // Read as an e, the accent makes no difference. A longer key
            // covers the one that ends inside the character.
            match plain(&m, text) {
                Ok(ids) => assert!((second || !first) && (ids == vec![4]) == second),
                Err(e) => assert!(first && !second && matches!(e, TokenizerError::Cut)),
            }
            // Keys that stand for nothing are passed over.
            assert_ne!(plain(&build(first, second, 2), text).unwrap(), vec![4]);
        }
    }
    // A piece that stands for itself goes before the table.
    let mut m = build(true, false, 0);
    piece("\u{e9}", -1.0, 4, &mut m);
    assert!(plain(&m, text).is_ok());
    assert!(matches!(plain(&m, "\u{ea}"), Err(TokenizerError::Cut)));
    let t = E5Tokenizer::load(&build(true, false, 0), CONFIG, 512).unwrap();
    assert!(matches!(t.encode_text("<s>\u{e9}"), Err(TokenizerError::Cut)));
    assert!(matches!(t.encode_rows(&["hello", "\u{e9}"]), Err(TokenizerError::Cut)));
    assert!(matches!(t.encode_prefixed("", "\u{e9}"), Err(TokenizerError::Cut)));
}

#[test]
fn merges_without_end_are_refused() {
    let build = |kind: u64, unused: u64, symbol: bool| {
        let mut m = vocabulary(true, true);
        for (text, score, kind) in [("xy", 1.0, unused), ("xyz", 5.0, unused), ("xyzx", 9.0, 1)] {
            piece(text, score, kind, &mut m);
        }
        for c in ["x", "y", "z", "q"] {
            piece(c, -9.0, 1, &mut m);
        }
        if symbol {
            piece("#", -1.0, 4, &mut m);
        }
        let mut trainer = Vec::new();
        varint(3 << 3, &mut trainer);
        varint(kind, &mut trainer);
        field(2, &trainer, &mut m);
        E5Tokenizer::load(&m, CONFIG, 512).unwrap()
    };
    let refused = |t: &E5Tokenizer, text: &str| match t.encode_plain(text) {
        Ok(ids) => {
            assert!(!ids.is_empty());
            false
        }
        Err(TokenizerError::Merges) => true,
        Err(e) => panic!("{e:?}"),
    };
    let t = build(2, 5, false);
    assert!(refused(&t, "xyqxyzxy"));
    // It is the normalized text that counts, which ends without the space.
    assert!(refused(&t, "xyqxyzxy "));
    assert!(matches!(t.encode_rows(&["q", "xyqxyzxy"]), Err(TokenizerError::Merges)));
    for text in ["hello", "xy", "xyzxyq", "xyqxyz", "qxy"] {
        assert!(!refused(&t, text), "{text}");
    }
    // The last pair need not be the end of the text.
    let t = build(2, 5, true);
    assert!(refused(&t, "xyqxyzxy") && refused(&t, "xyqxy#"));
    assert!(!refused(&t, "xyq#"));
    // Nothing is undone.
    for t in [build(2, 1, false), build(1, 5, false)] {
        assert!(!refused(&t, "xyqxyzxy"));
    }
}

#[test]
fn messages_are_read_field_by_field() {
    let mut m = Vec::new();
    field(1, b"ab", &mut m);
    varint(300 << 3, &mut m);
    varint(u64::MAX, &mut m);
    varint(2 << 3 | 5, &mut m);
    m.extend_from_slice(&[1, 2, 3, 4]);
    varint(2 << 3 | 1, &mut m);
    m.extend_from_slice(&[0; 8]);
    let fields = read_fields(&m).unwrap();
    let numbers: Vec<u32> = fields.iter().map(|f| f.number).collect();
    assert_eq!(numbers, [1, 300, 2, 2]);
    assert_eq!(&m[fields[0].from..fields[0].to], b"ab");
    assert_eq!((fields[1].wire, fields[1].value), (Wire::Varint, u64::MAX));
    assert_eq!((fields[2].wire, fields[3].wire), (Wire::Fixed32, Wire::Fixed64));
    assert_eq!(find_last(&fields, 2, Wire::Fixed32), Some(fields[2]));
    assert_eq!(find_last(&fields, 1, Wire::Varint), None);
    assert!(read_fields(&m[..m.len() - 1]).is_none());
    assert!(read_fields(&[3]).is_none());
    assert!(read_fields(&[0, 0]).is_none());
    assert!(read_fields(&[8, 0xff, 0xff, 0xff, 0xff, 0xff, 0xff, 0xff, 0xff, 0xff, 0xff, 0]).is_none());
    assert!(read_fields(&[]).unwrap().is_empty());
}

#[test]
fn padding_id_comes_from_the_configuration() {
    assert_eq!(pad_token_id(CONFIG).unwrap(), 1);
    assert_eq!(pad_token_id(b"{}").unwrap(), 0);
    assert_eq!(pad_token_id(b"[1, 2]").unwrap(), 0);
    assert_eq!(pad_token_id(br#"{"pad_token_id": -1}"#).unwrap(), 0);
    assert_eq!(pad_token_id(br#"{"pad_token_id": "1"}"#).unwrap(), 0);
    assert_eq!(
        pad_token_id(br#"{"pad_token_id": 18446744073709551615}"#).unwrap(),
        -1
    );
    assert!(matches!(pad_token_id(b"nonsense"), Err(TokenizerError::Config(_))));
}

#[test]
fn white_space_is_that_of_the_standard_library() {
    for u in 0..0x11_0000u32 {
        if let Some(c) = char::from_u32(u) {
            assert_eq!(is_white(c), c.is_whitespace(), "{u:x}");
        }
    }
    for s in ["", " ", "a", " a ", "\t\u{2003}a b\u{a0}\n", "\u{591c}\u{9a91} ", "\u{200b}x"] {
        assert_eq!(trim(s), s.trim());
        assert_eq!(trim(trim(s)), s.trim());
    }
    assert_eq!(chars_of("a\u{591c}"), vec!['a', '\u{591c}']);
}

#[test]
fn batches_hold_the_longest_rows_first() {
    assert_eq!(pack_batches(&[3, 5, 1], 10), vec![vec![1, 0], vec![2]]);
    assert_eq!(pack_batches(&[2, 2, 2], 4), vec![vec![0, 1], vec![2]]);
    // A row over the budget goes alone.
    assert_eq!(pack_batches(&[9, 8], 4), vec![vec![0], vec![1]]);
    assert_eq!(pack_batches(&[], 4), Vec::<Vec<usize>>::new());
    // Empty rows count as one token.
    assert_eq!(pack_batches(&[0, 0, 0], 2), vec![vec![0, 1], vec![2]]);
    let many = pack_batches(&vec![1; 600], usize::MAX);
    assert_eq!(many.iter().map(|b| b.len()).collect::<Vec<_>>(), vec![256, 256, 88]);
    let lens: Vec<usize> = (0..500).map(|i| (i * 7919) % 513).collect();
    let batches = pack_batches(&lens, DEFAULT_MAX_BATCH_TOKENS);
    let mut seen: Vec<usize> = batches.iter().flatten().copied().collect();
    for b in &batches {
        let longest = b.iter().map(|i| lens[*i].max(1)).max().unwrap();
        assert!(b.len() == 1 || b.len() * longest <= DEFAULT_MAX_BATCH_TOKENS);
    }
    seen.sort();
    assert_eq!(seen, (0..500).collect::<Vec<_>>());
}

#[test]
fn rows_are_padded_to_the_longest() {
    let rows = vec![vec![10, 11], vec![20, 21, 22], vec![]];
    let e = pad_rows(&rows, &[1, 0], 9);
    assert_eq!((e.batch_size, e.encoding_length), (2, 3));
    assert_eq!(e.input_ids, vec![20, 21, 22, 10, 11, 9]);
    assert_eq!(e.attention_mask, vec![1, 1, 1, 1, 1, 0]);
    assert_eq!(e.token_type_ids, vec![0; 6]);
    let e = pad_rows(&rows, &[2], 9);
    assert_eq!((e.batch_size, e.encoding_length), (1, 1));
    assert_eq!(e.input_ids, vec![9]);
    assert_eq!(e.attention_mask, vec![0]);
    let e = pad_rows(&rows, &[], 9);
    assert_eq!((e.batch_size, e.encoding_length), (0, 1));
    assert!(e.input_ids.is_empty());
}

#[test]
fn blank_texts_are_not_encoded() {
    let p = prefix_texts("query: ", &["  a ", "", " \n", "b"]);
    assert_eq!(p.texts, vec!["query: a", "query: b"]);
    assert_eq!(p.indices, vec![0, 3]);
}

#[test]
fn vectors_go_to_their_rows() {
    let mut out = vec!["-"; 4];
    assert_eq!(place_batch(&mut out, &[2, 0], vec!["x", "y"]), Ok(()));
    assert_eq!(out, vec!["y", "-", "x", "-"]);
    assert_eq!(
        place_batch(&mut out, &[1], vec!["p", "q"]),
        Err(CountMismatch { vectors: 2, rows: 1 })
    );
    assert_eq!(out, vec!["y", "-", "x", "-"]);
    let all = place_all(vec![0; 5], &vec![vec![3, 1], vec![0]], vec![vec![30, 10], vec![5]]);
    assert_eq!(all, Ok(vec![5, 10, 0, 30, 0]));
    let wrong = place_all(vec![0; 5], &vec![vec![3, 1], vec![0]], vec![vec![30, 10], vec![]]);
    assert_eq!(wrong, Err(CountMismatch { vectors: 0, rows: 1 }));
}
