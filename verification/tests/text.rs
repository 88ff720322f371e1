use earworm::binary32::{Binary32, POS_INF_BITS};
use earworm::devices::{device_rank, pick_device};
use earworm::hums::{best_per_name, parse_hum_line, split_words, text_equal, text_less};
use earworm::naming::{instrument_label, note_name};

fn chars(s: &str) -> Vec<char> {
    s.chars().collect()
}

fn b(x: f32) -> Binary32 {
    Binary32 { bits: x.to_bits() }
}

#[test]
fn note_name_of_common_keys() {
    assert_eq!(note_name(69), "A4");
    assert_eq!(note_name(60), "C4");
    assert_eq!(note_name(61), "C#4");
    assert_eq!(note_name(0), "C-1");
    assert_eq!(note_name(127), "G9");
}

#[test]
fn note_name_below_zero() {
    assert_eq!(note_name(-1), "B-2");
    assert_eq!(note_name(-13), "B-3");
    assert_eq!(note_name(-12), "C-2");
}

#[test]
fn instrument_label_joins_families() {
    assert_eq!(instrument_label(&[0, 33, 127]), "Piano(0),Bass(33),SoundFX(127)");
    assert_eq!(instrument_label(&[56]), "Brass(56)");
    assert_eq!(instrument_label(&[]), "");
}

#[test]
fn device_rank_by_name_words() {
    assert_eq!(device_rank(&chars("usb headphone mic")), Some(2));
    assert_eq!(device_rank(&chars("jack mic (headset)")), Some(0));
    assert_eq!(device_rank(&chars("mic array")), Some(4));
    assert_eq!(device_rank(&chars("gaming headset")), Some(5));
    assert_eq!(device_rank(&chars("plain usb mic")), Some(3));
    assert_eq!(device_rank(&chars("stereo mix (realtek)")), None);
    assert_eq!(device_rank(&chars("what u hear headphone")), None);
}

#[test]
fn pick_device_takes_first_best() {
    assert_eq!(pick_device(&[Some(3), None, Some(2), Some(2)]), Some(2));
    assert_eq!(pick_device(&[None, None]), None);
    assert_eq!(pick_device(&[]), None);
}

#[test]
fn split_words_on_white_space() {
    let w = split_words(&chars("  a\tbc \n d\u{a0}e"));
    assert_eq!(w, vec![chars("a"), chars("bc"), chars("d"), chars("e")]);
    assert_eq!(split_words(&chars("   ")), Vec::<Vec<char>>::new());
}

#[test]
fn parse_hum_line_splits_at_first_bar() {
    assert_eq!(
        parse_hum_line(&chars("tune|1 -2  3")),
        Some((chars("tune"), vec![chars("1"), chars("-2"), chars("3")]))
    );
    assert_eq!(parse_hum_line(&chars("a|b|c")), Some((chars("a"), vec![chars("b|c")])));
    assert_eq!(parse_hum_line(&chars("x|")), Some((chars("x"), vec![])));
    assert_eq!(parse_hum_line(&chars("no bar here")), None);
}

#[test]
fn text_order_is_lexicographic() {
    assert!(text_less(&chars("ab"), &chars("b")));
    assert!(!text_less(&chars("ab"), &chars("a")));
    assert!(text_less(&chars(""), &chars("a")));
    assert!(!text_less(&chars("a"), &chars("a")));
    assert!(text_less(&chars("Z"), &chars("a")));
    assert!(text_equal(&chars("hum"), &chars("hum")));
    assert!(!text_equal(&chars("hum"), &chars("hums")));
}

#[test]
fn best_per_name_keeps_the_lowest_score_of_each_song() {
    let names = vec![chars("b"), chars("a"), chars("b"), chars("c")];
    let costs = vec![b(0.5), b(0.7), b(0.2), b(f32::NAN)];
    let (ns, cs) = best_per_name(&names, &costs);
    assert_eq!(ns, vec![chars("a"), chars("b"), chars("c")]);
    assert_eq!(cs, vec![b(0.7), b(0.2), Binary32 { bits: POS_INF_BITS }]);
    let (e, f) = best_per_name(&[], &[]);
    assert!(e.is_empty() && f.is_empty());
}
