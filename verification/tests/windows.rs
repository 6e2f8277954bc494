use ngram_iter::Iter;
use ngram_iter::Iterable;
use ngram_iter::VecSource;

fn collect_windows<const N: usize>(input: &str) -> Vec<Vec<char>> {
    let src = VecSource::new(input.chars().collect());
    let mut it: Iter<char, VecSource<char>, N> = Iter::from(src);
    let mut all = Vec::new();
    while let Some(w) = it.next() {
        all.push(w);
    }
    all
}

#[test]
fn bumper_for_char_is_underscore() {
    assert_eq!(char::bumper_item(), '_');
}

#[test]
fn bigram_ab() {
    let ws = collect_windows::<2>("ab");
    assert_eq!(ws, vec![vec!['_', 'a'], vec!['a', 'b'], vec!['b', '_']]);
}

#[test]
fn bigram_empty_input_yields_no_windows() {
    let ws = collect_windows::<2>("");
    assert_eq!(ws.len(), 0);
}

#[test]
fn trigram_ab() {
    let ws = collect_windows::<3>("ab");
    assert_eq!(
        ws,
        vec![
            vec!['_', 'a', 'b'],
            vec!['a', 'b', '_'],
            vec!['b', '_', '_'],
        ]
    );
}

#[test]
fn trigram_single_item() {
    let ws = collect_windows::<3>("a");
    assert_eq!(ws, vec![vec!['_', 'a', '_'], vec!['a', '_', '_']]);
}

#[test]
fn bigram_alphabet_starts_as_documented() {
    let letters: String = ('a'..='z').collect();
    let src = VecSource::new(letters.chars().collect());
    let mut bigrams: Iter<char, VecSource<char>, 2> = Iter::from(src);
    assert_eq!(bigrams.next(), Some(vec![char::bumper_item(), 'a']));
    assert_eq!(bigrams.next(), Some(vec!['a', 'b']));
}

#[test]
fn trigram_alphabet_starts_as_documented() {
    let letters: String = ('a'..='z').collect();
    let src = VecSource::new(letters.chars().collect());
    let mut trigrams: Iter<char, VecSource<char>, 3> = Iter::from(src);
    assert_eq!(trigrams.next(), Some(vec![char::bumper_item(), 'a', 'b']));
}

#[test]
fn ten_gram_alphabet() {
    let letters: String = ('a'..='z').collect();
    let ws = collect_windows::<10>(&letters);
    assert_eq!(
        ws[0],
        vec!['_', 'a', 'b', 'c', 'd', 'e', 'f', 'g', 'h', 'i']
    );
    assert_eq!(
        ws[1],
        vec!['a', 'b', 'c', 'd', 'e', 'f', 'g', 'h', 'i', 'j']
    );
    // one window per item, plus the opening bumper-led window
    assert_eq!(ws.len(), 27);
    assert_eq!(
        ws[26],
        vec!['z', '_', '_', '_', '_', '_', '_', '_', '_', '_']
    );
}

#[test]
fn window_count_is_input_length_plus_one() {
    for len in 1..8usize {
        let input: String = ('a'..='z').take(len).collect();
        assert_eq!(collect_windows::<2>(&input).len(), len + 1);
        assert_eq!(collect_windows::<4>(&input).len(), len + 1);
    }
}

#[test]
fn every_window_has_width_n() {
    for len in 0..8usize {
        let input: String = ('a'..='z').take(len).collect();
        for w in collect_windows::<2>(&input) {
            assert_eq!(w.len(), 2);
        }
        for w in collect_windows::<5>(&input) {
            assert_eq!(w.len(), 5);
        }
    }
}

#[test]
fn last_item_reaches_the_tail_then_only_padding_drains() {
    // N = 3, "abc": the last input item 'c' is the tail of the last window
    // whose tail holds real data; every later window's tail is the bumper.
    let ws = collect_windows::<3>("abc");
    assert_eq!(
        ws,
        vec![
            vec!['_', 'a', 'b'],
            vec!['a', 'b', 'c'],
            vec!['b', 'c', '_'],
            vec!['c', '_', '_'],
        ]
    );
    let last_real = ws
        .iter()
        .rposition(|w| *w.last().unwrap() != '_')
        .unwrap();
    assert_eq!(last_real, 1);
    assert_eq!(*ws[last_real].last().unwrap(), 'c');
    for w in &ws[last_real + 1..] {
        assert_eq!(*w.last().unwrap(), '_');
    }
}

#[test]
fn exhaustion_is_idempotent() {
    let src = VecSource::new("ab".chars().collect());
    let mut it: Iter<char, VecSource<char>, 2> = Iter::from(src);
    while it.next().is_some() {}
    for _ in 0..5 {
        assert_eq!(it.next(), None);
    }
}

#[test]
fn exhaustion_is_idempotent_on_empty_input() {
    let src = VecSource::new(Vec::new());
    let mut it: Iter<char, VecSource<char>, 4> = Iter::from(src);
    for _ in 0..5 {
        assert_eq!(it.next(), None);
    }
}
