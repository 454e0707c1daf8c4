//! Tokenizer and chat template.
use gemma_wgpu::json::{parse, Json};
use gemma_wgpu::template::{apply_chat_template, fold_system_prompt, Message};
use gemma_wgpu::tokenizer::load::{can_be_read, has_complete_merges};
use gemma_wgpu::tokenizer::{parse_byte_token, ModelType, Tokenizer};

fn json(text: &str) -> Json {
    parse(text).unwrap()
}

fn tok() -> Tokenizer {
    let json = json(
        r#"{
        "added_tokens": [
            { "id": 0, "content": "<bos>" }, { "id": 1, "content": "<eos>" },
            { "id": 2, "content": "<|turn>" }, { "id": 3, "content": "<turn|>" }
        ],
        "model": {
            "type": "Unigram", "unk_id": 4, "byte_fallback": true,
            "vocab": [
                ["<bos>", 0], ["<eos>", 0], ["<|turn>", 0], ["<turn|>", 0], ["<unk>", 0],
                ["▁hello", -1], ["▁world", -1], ["▁", -3],
                ["h", -5], ["e", -5], ["l", -5], ["o", -5],
                ["<0x21>", -6], ["<0xE2>", -6], ["<0x82>", -6], ["<0xAC>", -6]
            ]
        }
    }"#,
    );
    Tokenizer::from_json(&json, Some(0), Some(&[1])).unwrap()
}

fn id(t: &Tokenizer, piece: &str) -> u32 {
    *t.piece_to_id.get(piece).unwrap()
}

#[test]
fn encode_decode_roundtrip() {
    let t = tok();
    let ids = t.encode("hello world", true);
    assert_eq!(ids[0], 0, "starts with bos");
    assert!(ids.contains(&id(&t, "▁hello")), "encodes ▁hello as one piece");
    assert!(ids.contains(&id(&t, "▁world")), "encodes ▁world as one piece");
    assert_eq!(t.decode(&ids, true), "hello world");
}

#[test]
fn byte_fallback() {
    let t = tok();
    let bf = t.encode("o!", false);
    assert!(bf.contains(&id(&t, "<0x21>")), "falls back to byte token for '!'");
    let euro: Vec<u32> = ["<0xE2>", "<0x82>", "<0xAC>"].iter().map(|p| id(&t, p)).collect();
    assert_eq!(t.decode(&euro, true), "€", "decodes a multi-token UTF-8 character");
    let mut inc = t.decoder(true);
    let frags: String = euro.iter().map(|&id| inc.push(id)).collect();
    assert_eq!(frags, "€");
    assert_eq!(inc.text(), "€", "incremental decoder joins UTF-8 byte tokens");
    // an unfinished byte sequence flushes to U+FFFD
    let mut inc = t.decoder(true);
    inc.push(euro[0]);
    assert_eq!(inc.finish(), "\u{FFFD}");
}

#[test]
fn special_tokens_stay_atomic() {
    let t = tok();
    let st = t.encode("<|turn>hello", false);
    assert_eq!(st[0], 2, "leading special token -> single id");
    let mid = t.encode("hello<turn|>hello", false);
    assert_eq!(mid.iter().filter(|&&i| i == 3).count(), 1);
    assert!(!t.decode(&mid, true).contains("<turn|>"));
    assert!(t.decode(&mid, false).contains("<turn|>"));
}

#[test]
fn bpe_model() {
    let json = json(
        r#"{
        "model": { "type": "BPE", "unk_token": "<unk>",
            "vocab": { "<unk>": 0, "▁": 1, "a": 2, "b": 3, "ab": 4, "▁ab": 5 },
            "merges": ["a b", "▁ ab"] }
    }"#,
    );
    let t = Tokenizer::from_json(&json, None, None).unwrap();
    assert_eq!(t.encode("ab", false), vec![5]);
    assert_eq!(t.encode("ba", false), vec![1, 3, 2]);
}

#[test]
fn chat_template() {
    let msgs = fold_system_prompt(&[Message::system("Be nice."), Message::user("Hi")]);
    let text = apply_chat_template(&msgs, true);
    assert!(text.contains("<|turn>system\nBe nice.<turn|>"), "system gets its own turn");
    assert!(text.ends_with("<|turn>model\n"), "ends with model generation prompt");
    assert!(apply_chat_template(&[Message::assistant("x")], false).starts_with("<|turn>model\nx<turn|>\n"));
}

#[test]
fn bytes_decode_one_way_or_another() {
    let t = tok();
    let euro: Vec<u32> = ["<0xE2>", "<0x82>", "<0xAC>"].iter().map(|p| id(&t, p)).collect();
    let ids = [vec![id(&t, "▁hello")], euro, vec![id(&t, "h"), 999, id(&t, "<0x21>")]].concat();
    let mut inc = t.decoder(true);
    let mut all: String = ids.iter().map(|&id| inc.push(id)).collect();
    all.push_str(&inc.finish());
    assert_eq!(all, t.decode(&ids, true));
    assert_eq!(all, inc.text());
    assert_eq!(all, "hello€h!");
}

#[test]
fn a_broken_character_is_replaced() {
    let t = tok();
    // 0xE2 0x82 is cut off by another piece
    let ids = [id(&t, "<0xE2>"), id(&t, "<0x82>"), id(&t, "h")];
    assert_eq!(t.decode(&ids, true), "\u{FFFD}h");
    // 0xAC starts no character
    assert_eq!(t.decode(&[id(&t, "<0xAC>"), id(&t, "<0x21>")], true), "\u{FFFD}!");
}

#[test]
fn unknown_text_is_the_unknown_piece() {
    let json = json(r#"{ "model": { "type": "Unigram", "unk_id": 0, "vocab": [["<unk>", 0], ["▁", -1], ["a", -2]] } }"#);
    let t = Tokenizer::from_json(&json, None, None).unwrap();
    assert_eq!(t.encode("az", false), [1, 2, 0]);
    assert_eq!(t.vocab_len(), 3);
    assert_eq!(t.piece(2), Some("a"));
    assert_eq!(t.piece(3), None);
    assert!(t.model_type == ModelType::Unigram);
}

#[test]
fn the_best_segmentation_wins() {
    let json = json(
        r#"{ "model": { "type": "Unigram", "unk_id": 0,
            "vocab": [["<unk>", 0], ["▁", -1], ["a", -2], ["b", -2], ["ab", -5], ["▁ab", -3.5]] } }"#,
    );
    let t = Tokenizer::from_json(&json, None, None).unwrap();
    assert_eq!(t.encode("ab", false), [5]);
    // "ab" costs 5, "a" and "b" cost 4
    assert_eq!(t.encode("bab", false), [1, 3, 2, 3]);
}

#[test]
fn the_longest_special_comes_first() {
    let json = json(
        r#"{
        "added_tokens": [ { "id": 1, "content": "<a>" }, { "id": 2, "content": "<a><b>" } ],
        "model": { "type": "Unigram", "unk_id": 0, "vocab": [["<unk>", 0], ["<a>", 0], ["<a><b>", 0], ["▁", -1]] }
    }"#,
    );
    let t = Tokenizer::from_json(&json, None, None).unwrap();
    assert_eq!(t.encode("<a><b><a>", false), [2, 1]);
}

#[test]
fn byte_tokens_are_hexadecimal() {
    assert_eq!(parse_byte_token("<0x21>"), Some(0x21));
    assert_eq!(parse_byte_token("<0xfF>"), Some(0xff));
    assert_eq!(parse_byte_token("<0x2>"), None);
    assert_eq!(parse_byte_token("<0xZZ>"), None);
    assert_eq!(parse_byte_token("0x21"), None);
}

#[test]
fn the_end_ids_are_known() {
    let t = tok();
    assert!(t.is_eos(1) && !t.is_eos(0));
    assert_eq!(t.bos_id, Some(0));
}

#[test]
fn a_tokenizer_without_a_model_is_refused() {
    assert!(Tokenizer::from_json(&json("{}"), None, None).is_err());
    assert!(Tokenizer::from_json(&json(r#"{ "model": { "type": "WordPiece" } }"#), None, None).is_err());
}

#[test]
fn merges_must_name_two_symbols() {
    assert!(has_complete_merges(&json(r#"{ "model": { "merges": ["a b", ["c", "d"]] } }"#)));
    assert!(!has_complete_merges(&json(r#"{ "model": { "type": "BPE", "vocab": {}, "merges": [["a"]] } }"#)));
}

#[test]
fn the_normal_form_marks_spaces() {
    let t = tok();
    assert_eq!(t.normalize("hello world"), "▁hello▁world");
}

#[test]
fn a_chat_is_written_turn_by_turn() {
    let msgs = [Message::user("Hi"), Message::assistant("Hello"), Message::user("Bye")];
    assert_eq!(
        apply_chat_template(&msgs, true),
        "<|turn>user\nHi<turn|>\n<|turn>model\nHello<turn|>\n<|turn>user\nBye<turn|>\n<|turn>model\n"
    );
    let folded = fold_system_prompt(&msgs);
    assert_eq!(apply_chat_template(&folded, true), apply_chat_template(&msgs, true));
}

#[test]
fn what_is_encoded_decodes_to_itself() {
    let t = tok();
    for text in ["hello", "hello world", "world  hello", " hello", "", "o!", "helo €!", "ho le"] {
        assert_eq!(t.decode(&t.encode(text, true), true), text);
        assert_eq!(t.decode(&t.encode(text, false), false), text);
    }
    let bpe = json(
        r#"{ "model": { "type": "BPE", "unk_token": "<unk>", "byte_fallback": true,
            "vocab": { "<unk>": 0, "▁": 1, "a": 2, "b": 3, "ab": 4, "▁ab": 5, "<0xC3>": 6, "<0xA9>": 7 },
            "merges": ["a b", "▁ ab"] } }"#,
    );
    let t = Tokenizer::from_json(&bpe, None, None).unwrap();
    for text in ["ab", "ba ab", "abéa", ""] {
        assert_eq!(t.decode(&t.encode(text, false), true), text);
    }
}

#[test]
fn special_token_parts_its_surroundings() {
    let t = tok();
    let hello = t.encode("hello", false);
    let mut want = hello.clone();
    want.push(3);
    want.extend(&hello);
    assert_eq!(t.encode("hello<turn|>hello", false), want);
    assert_eq!(t.encode("<turn|><turn|>", false), vec![3, 3]);
}

#[test]
fn merges_of_a_unigram_model_do_not_count() {
    let doc = json(r#"{ "model": { "type": "Unigram", "vocab": [["a", -1.0]], "merges": [["a"]] } }"#);
    assert!(can_be_read(&doc) && !has_complete_merges(&doc));
    assert!(Tokenizer::from_json(&doc, None, None).is_ok());
    assert!(!can_be_read(&json(r#"{ "model": { "type": "BPE", "vocab": {}, "merges": [["a"]] } }"#)));
    assert!(can_be_read(&json(r#"{ "model": { "type": "BPE", "merges": [["a"]] } }"#)));
}

#[test]
fn no_other_cut_scores_better() {
    let doc = json(
        r#"{ "model": { "type": "Unigram", "unk_id": 0,
            "vocab": [["<unk>", 0], ["▁", -1.0], ["a", -2.0], ["b", -2.0], ["ab", -3.5], ["▁a", -2.5], ["▁ab", -4.75]] } }"#,
    );
    let t = Tokenizer::from_json(&doc, None, None).unwrap();
    // ▁ + ab = -4.5, which ▁a + b = -4.5 does not better; ▁ab = -4.75
    assert_eq!(t.encode("ab", false), vec![1, 4]);
}

#[test]
fn a_hidden_mark_at_the_front_is_not_missed() {
    let doc = json(
        r#"{ "added_tokens": [{ "id": 1, "content": "▁", "special": true }],
            "model": { "type": "Unigram", "unk_id": 0, "vocab": [["<unk>", 0], ["▁", -1.0], ["a", -1.0], ["b", -1.0]] } }"#,
    );
    let t = Tokenizer::from_json(&doc, None, None).unwrap();
    assert_eq!(t.encode("ab", false), vec![1, 2, 3]);
    for text in ["a", "ab", "ba"] {
        assert_eq!(t.decode(&t.encode(text, false), true), text);
    }
    // a space is written as such a mark, and lost
    assert_eq!(t.decode(&t.encode("a b", false), true), "ab");
}
