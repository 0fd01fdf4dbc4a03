use pulsar::bpe::merge_symbols;
use vstd::hash_map::StringHashMap;

fn ranks(merges: &[&str]) -> StringHashMap<u32> {
    let mut m = StringHashMap::new();
    for (i, s) in merges.iter().enumerate() {
        m.insert(s.to_string(), i as u32);
    }
    m
}

fn merge(merges: &[&str], text: &str) -> Vec<String> {
    merge_symbols(&ranks(merges), text.chars().map(|c| c.to_string()).collect())
}

#[test]
fn merging_keeps_the_text_and_leaves_nothing_to_merge() {
    let merges = ["l o", "lo w", "e r", "n e", "ne w", "w er"];
    for text in ["", "l", "lower", "newer", "slowerlow", "nnewwerr"] {
        let sym = merge(&merges, text);
        assert_eq!(sym.concat(), text);
        for w in sym.windows(2) {
            let pair = w.join(" ");
            assert!(!merges.contains(&pair.as_str()), "{pair}");
        }
    }
    assert_eq!(merge(&merges, "lower"), vec!["low", "er"]);
    assert_eq!(merge(&merges, "newer"), vec!["new", "er"]);
}
