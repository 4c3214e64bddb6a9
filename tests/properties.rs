use rust_reader::{
    clean_iter, clean_text, clean_text_string, clean_text_u16idx_in, clean_text_u16idx_out,
    clean_text_u8idx_in, clean_text_u8idx_out, input_range_u16, parse_rule, rule_table, utf16_len,
    utf8_len,
    what_on_clipboard_seq_num, ClipboardPoll, StatusUtil, ToWide, VoiceStatus, Cleaner, ConfigError, Settings, DEFAULT_RATE,
};

const MIXED: &str = "Hello \u{5d4}\u{5a2}\u{5d4}\u{5a2}\u{5d4}\u{5a2}\u{5d4}\u{5a2}\u{5d4}\u{5a2} \
                     ----------- \u{1d565}\u{1d565}\u{1d565}\u{1d565}\u{1d565}       ";

fn defaults() -> Vec<Cleaner> {
    Settings::new().cleaners
}

#[test]
fn default_settings() {
    let s = Settings::new();
    assert_eq!(s.rate, 6);
    assert_eq!(DEFAULT_RATE, 6);
    assert_eq!(s.cleaners.len(), 8);
    assert_eq!(s.cleaners[0], Cleaner::Whitespace);
}

#[test]
fn empty_text_has_one_boundary() {
    let list = defaults();
    assert_eq!(clean_text("", &list), "");
    assert_eq!(clean_text_u8idx_in("", &list), vec![0]);
    assert_eq!(clean_text_u8idx_out("", &list), vec![0]);
    assert_eq!(clean_text_u16idx_in("", &list), vec![0]);
    assert_eq!(clean_text_u16idx_out("", &list), vec![0]);
    assert!(clean_iter("", &list).is_empty());
}

#[test]
fn segments_join_to_both_texts() {
    let list = defaults();
    let segs = clean_iter(MIXED, &list);
    let inputs: String = segs.iter().map(|(o, _)| o.as_str()).collect();
    let outputs: String = segs.iter().map(|(_, c)| c.as_str()).collect();
    assert_eq!(inputs, MIXED);
    assert_eq!(outputs, clean_text(MIXED, &list));
    assert_eq!(segs.len() + 1, clean_text_u8idx_in(MIXED, &list).len());
    assert_eq!(segs[6], ("\u{5d4}\u{5a2}".to_string(), "\u{5d4}\u{5a2}".to_string()));
    assert_eq!(segs[9], ("\u{5d4}\u{5a2}".to_string(), String::new()));
    assert_eq!(segs[segs.len() - 1], ("       ".to_string(), " ".to_string()));
}

#[test]
fn prefix_consistency_in_utf16() {
    let list = defaults();
    let ins = clean_text_u8idx_in(MIXED, &list);
    let outs = clean_text_u16idx_out(MIXED, &list);
    for (&i, &o) in ins.iter().zip(outs.iter()) {
        assert_eq!(clean_text(&MIXED[..i], &list).encode_utf16().count(), o);
    }
}

#[test]
fn granularity_tables_name_the_same_boundaries() {
    let list = defaults();
    let to_scalars_u8 = |s: &str, b: usize| s[..b].chars().count();
    let to_scalars_u16 = |s: &str, u: usize| {
        let mut n = 0;
        let mut units = 0;
        for c in s.chars() {
            if units == u {
                break;
            }
            units += c.len_utf16();
            n += 1;
        }
        assert_eq!(units, u);
        n
    };
    let out = clean_text(MIXED, &list);
    let in8 = clean_text_u8idx_in(MIXED, &list);
    let in16 = clean_text_u16idx_in(MIXED, &list);
    let out8 = clean_text_u8idx_out(MIXED, &list);
    let out16 = clean_text_u16idx_out(MIXED, &list);
    for k in 0..in8.len() {
        assert_eq!(to_scalars_u8(MIXED, in8[k]), to_scalars_u16(MIXED, in16[k]));
        assert_eq!(to_scalars_u8(&out, out8[k]), to_scalars_u16(&out, out16[k]));
    }
}

#[test]
fn whitespace_collapse_keeps_single_spaced_text() {
    let ws = [Cleaner::Whitespace];
    assert_eq!(clean_text_string("a b c!", &ws), "a b c!");
    let once = clean_text_string(" \t a\r\n\nb  ", &ws);
    assert_eq!(once, " a b ");
    assert_eq!(clean_text_string(&once, &ws), once);
    assert_eq!(clean_text_string("\t", &ws), " ");
}

#[test]
fn runs_shorten_from_four_copies() {
    let list = defaults();
    assert_eq!(clean_text("a---b", &list), "a---b");
    assert_eq!(clean_text("a----b", &list), "a---b");
    assert_eq!(clean_text("____", &list), "___");
    assert_eq!(clean_text("ab\u{1d565}\u{1d565}\u{1d565}\u{1d565}", &list), "ab\u{1d565}\u{1d565}\u{1d565}");
    assert_eq!(clean_text("xyxyxyxyxy", &list), "xyxyxy");
    assert_eq!(clean_text("0000000000", &list), "0000000000");
    assert_eq!(clean_text("aaaaaa", &[Cleaner::Filler('a')]), "aaa");
    assert_eq!(clean_text("aaaaaaaa", &[Cleaner::Pair]), "aaaaaaaa");
}

#[test]
fn hash_needs_exactly_forty_digits() {
    let list = defaults();
    let forty = "4773d2e39d0be947344ddfebc92d16f37e0584aa";
    let longer = format!("{}b", forty);
    assert_eq!(clean_text(&longer, &list), longer);
    assert_eq!(clean_text(&forty[1..], &list), &forty[1..]);
    assert_eq!(
        clean_text("ABCDEF0123ABCDEF0123ABCDEF0123ABCDEF0123.", &list),
        "hash ABCDEF."
    );
}

#[test]
fn links_keep_their_host() {
    let list = defaults();
    assert_eq!(clean_text("see http://example.org/a/b", &list), "see link to example.org");
    assert_eq!(clean_text("https://a.b?x=1#top", &list), "link to a.b");
    assert_eq!(clean_text("(www.rust-lang.org)", &list), "(link to www.rust-lang.org)");
    assert_eq!(clean_text("youtube.com/watch", &list), "youtube.com/watch");
}

#[test]
fn rules_apply_in_order() {
    assert_eq!(clean_text("a  \t  ----", &[Cleaner::Whitespace, Cleaner::Filler('-')]), "a ---");
    assert_eq!(clean_text("a \t ----", &[Cleaner::Filler('-')]), "a \t ---");
}

#[test]
fn encoding_widths() {
    assert_eq!(utf8_len('a'), 1);
    assert_eq!(utf8_len('\u{5d4}'), 2);
    assert_eq!(utf8_len('\u{20ac}'), 3);
    assert_eq!(utf8_len('\u{1d565}'), 4);
    assert_eq!(utf16_len('\u{ffff}'), 1);
    assert_eq!(utf16_len('\u{1d565}'), 2);
}

#[test]
fn rule_names_parse() {
    assert_eq!(parse_rule("whitespace"), Some(Cleaner::Whitespace));
    assert_eq!(parse_rule("filler:="), Some(Cleaner::Filler('=')));
    assert_eq!(parse_rule("filler:"), None);
    assert_eq!(parse_rule("links"), None);
    let names: Vec<String> = ["whitespace", "filler:-", "astral", "pair", "hash", "link"]
        .iter()
        .map(|s| s.to_string())
        .collect();
    assert_eq!(
        rule_table(&names),
        Ok(vec![
            Cleaner::Whitespace,
            Cleaner::Filler('-'),
            Cleaner::Astral,
            Cleaner::Pair,
            Cleaner::Hash,
            Cleaner::Link
        ])
    );
}

#[test]
fn unknown_rule_is_a_configuration_error() {
    let names: Vec<String> = ["hash", "regex:[a-", "nope"].iter().map(|s| s.to_string()).collect();
    assert_eq!(rule_table(&names), Err(ConfigError::UnknownRule(1)));
    assert_eq!(rule_table(&[]), Ok(vec![]));
}

#[test]
fn spoken_ranges_map_back_to_whole_runs() {
    let list = defaults();
    assert_eq!(input_range_u16(MIXED, &list, 0, 5), (0, 5));
    assert_eq!(input_range_u16(MIXED, &list, 6, 12), (6, 16));
    assert_eq!(input_range_u16(MIXED, &list, 13, 16), (17, 28));
    assert_eq!(input_range_u16(MIXED, &list, 17, 23), (29, 39));
    assert_eq!(input_range_u16(MIXED, &list, 24, 24), (46, 46));
}

#[test]
fn spoken_range_inside_a_replacement_covers_its_source() {
    let list = defaults();
    let text = "see https://a.b/c";
    assert_eq!(clean_text(text, &list), "see link to a.b");
    assert_eq!(input_range_u16(text, &list, 12, 15), (4, 17));
    assert_eq!(input_range_u16(text, &list, 0, 3), (0, 3));
}

#[test]
fn clipboard_wait_decisions() {
    assert_eq!(what_on_clipboard_seq_num(5, 15, 1, Some(6)), ClipboardPoll::Changed);
    assert_eq!(what_on_clipboard_seq_num(5, 15, 1, Some(5)), ClipboardPoll::Wait(10));
    assert_eq!(what_on_clipboard_seq_num(5, 15, 3, None), ClipboardPoll::Wait(30));
    assert_eq!(what_on_clipboard_seq_num(5, 15, 15, Some(5)), ClipboardPoll::Wait(150));
    assert_eq!(what_on_clipboard_seq_num(5, 15, 16, Some(5)), ClipboardPoll::Unchanged);
    assert_eq!(what_on_clipboard_seq_num(5, 15, 16, Some(7)), ClipboardPoll::Changed);
}

#[test]
fn wide_text_uses_surrogate_pairs() {
    assert_eq!("a\u{1d565}".to_wide(), vec![0x61, 0xD835, 0xDD65]);
    assert_eq!("Ready!".to_wide_null(), vec![82, 101, 97, 100, 121, 33, 0]);
    assert_eq!(MIXED.to_wide(), MIXED.encode_utf16().collect::<Vec<u16>>());
    assert!("".to_wide().is_empty());
}

#[test]
fn status_ranges() {
    let s = VoiceStatus { running_state: 2, word_pos: 3, word_len: 5, sent_pos: 0, sent_len: 12 };
    assert_eq!(s.word_range(), 3..8);
    assert_eq!(s.sent_range(), 0..12);
    let big = VoiceStatus { running_state: 0, word_pos: u32::MAX, word_len: 1, sent_pos: 0, sent_len: 0 };
    assert_eq!(big.word_range(), (u32::MAX as usize)..(u32::MAX as usize + 1));
}
