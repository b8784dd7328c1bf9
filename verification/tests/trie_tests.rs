use toktrie::error::TrieError;
use toktrie::info::{SpecialToken, TokRxInfo};
use toktrie::recognizer::Recognizer;
use toktrie::trie::TokTrie;

/// A recognizer over a fixed set of target byte strings: a stack is viable
/// when it is a prefix of some target, or (in extend mode) when it extends
/// one. It counts pushes and pops and records the stack depth at every
/// `trie_finished`.
struct MockRec {
    targets: Vec<Vec<u8>>,
    extend: bool,
    special_eos: bool,
    stack: Vec<u8>,
    total_pushes: usize,
    total_pops: usize,
    finish_depths: Vec<usize>,
}

impl MockRec {
    fn new(targets: Vec<&str>, extend: bool, special_eos: bool) -> Self {
        MockRec {
            targets: targets.iter().map(|s| s.as_bytes().to_vec()).collect(),
            extend,
            special_eos,
            stack: Vec::new(),
            total_pushes: 0,
            total_pops: 0,
            finish_depths: Vec::new(),
        }
    }

    fn viable_stack(&self, cand: &[u8]) -> bool {
        for t in &self.targets {
            if cand.len() <= t.len() && t[..cand.len()] == *cand {
                return true;
            }
            if self.extend && cand.len() > t.len() && cand[..t.len()] == t[..] {
                return true;
            }
        }
        false
    }
}

impl Recognizer for MockRec {
    // the ghost model of the recognizer exists only for verification;
    // these bodies never run
    fn pushed(&self) -> vstd::seq::Seq<u8> {
        unreachable!()
    }

    fn viable(&self, _s: vstd::seq::Seq<u8>) -> bool {
        unreachable!()
    }

    fn special_ok(&self, _tok: SpecialToken) -> bool {
        unreachable!()
    }

    fn pop_bytes(&mut self, num: usize) {
        assert!(num <= self.stack.len(), "pop balance violated");
        for _ in 0..num {
            self.stack.pop();
            self.total_pops += 1;
        }
    }

    fn collapse(&mut self) {
        self.stack.clear();
    }

    fn try_push_byte(&mut self, byte: u8) -> bool {
        self.stack.push(byte);
        let cand = self.stack.clone();
        if self.viable_stack(&cand) {
            self.total_pushes += 1;
            true
        } else {
            self.stack.pop();
            false
        }
    }

    fn byte_allowed(&mut self, byte: u8) -> bool {
        if self.try_push_byte(byte) {
            self.pop_bytes(1);
            true
        } else {
            false
        }
    }

    fn special_allowed(&mut self, tok: SpecialToken) -> bool {
        tok == SpecialToken::EndOfSentence && self.special_eos
    }

    fn trie_started(&mut self) {
        self.stack.clear();
    }

    fn trie_finished(&mut self) {
        self.finish_depths.push(self.stack.len());
        self.stack.clear();
    }

    fn get_error(&mut self) -> Option<String> {
        None
    }
}

fn vocab(words: &[&str]) -> (TokRxInfo, Vec<Vec<u8>>) {
    let ws: Vec<Vec<u8>> = words.iter().map(|w| w.as_bytes().to_vec()).collect();
    (TokRxInfo::new(ws.len() as u32, 0), ws)
}

fn build(words: &[&str]) -> TokTrie {
    let (info, ws) = vocab(words);
    TokTrie::from(&info, &ws).expect("vocabulary must build")
}

#[test]
fn info_round_trip() {
    let info = TokRxInfo::new(100, 7);
    assert_eq!(info.vocab_size, 100);
    assert_eq!(info.tok_eos, 7);
    assert!(info.tok_bos.is_none());
    let bin = info.to_bin();
    let back = TokRxInfo::from_bin(&bin);
    assert_eq!(back.vocab_size, 100);
    assert_eq!(back.tok_eos, 7);
    assert!(back.tok_end_of_turn.is_none());
}

#[test]
fn token_contents() {
    let trie = build(&["a", "b", "ab", ""]);
    assert_eq!(trie.vocab_size(), 4);
    assert_eq!(trie.token(0), b"a");
    assert_eq!(trie.token(1), b"b");
    assert_eq!(trie.token(2), b"ab");
    assert_eq!(trie.token(3), b"");
    assert_eq!(trie.token(100), b"");
    assert_eq!(trie.max_token_len(), 2);
}

#[test]
fn child_lookup_and_extensions() {
    let trie = build(&["a", "b", "ab"]);
    let root = trie.root();
    let a = trie.child_at_byte(root, b'a').expect("a");
    assert_eq!(trie.node(a).token_id(), Some(0));
    let ab = trie.child_at_bytes(root, b"ab").expect("ab");
    assert_eq!(trie.node(ab).token_id(), Some(2));
    assert!(trie.child_at_byte(root, b'z').is_none());
    assert!(trie.has_extensions(b"a"));
    assert!(!trie.has_extensions(b"ab"));
    assert!(!trie.has_extensions(b"zz"));
    let kids = trie.node_children(root);
    assert_eq!(kids.len(), 2);
}

#[test]
fn preorder_consistency() {
    // every node's subtree size is one more than its children's sizes
    // combined, and children bytes strictly ascend
    let trie = build(&["a", "ab", "abc", "ax", "b"]);
    let n = trie.node_count();
    for p in 0..n {
        let node = trie.node(p);
        let kids = trie.node_children(p);
        let mut sum = 0;
        let mut prev: Option<u8> = None;
        for c in kids {
            sum += trie.node(c).subtree_size();
            let b = trie.node(c).byte();
            if let Some(pb) = prev {
                assert!(pb < b, "children must ascend");
            }
            prev = Some(b);
        }
        assert_eq!(node.subtree_size(), 1 + sum);
    }
}

#[test]
fn prefix_and_token_id() {
    let trie = build(&["a", "ab", "abc"]);
    assert_eq!(trie.prefix_token_id(b"abz"), (1, 2));
    assert_eq!(trie.prefix_token_id(b"zzz"), (0, 0));
    assert_eq!(trie.token_id(b"ab"), Some(1));
    assert_eq!(trie.token_id(b"abz"), None);
}

#[test]
fn greedy_reconstructs() {
    let trie = build(&["a", "b", "ab"]);
    for t in 0..3u32 {
        let toks = trie.greedy_tokenize(trie.token(t)).expect("covered");
        let back = trie.decode_raw(&toks);
        assert_eq!(back.as_slice(), trie.token(t));
    }
    // longest match wins, then restart
    assert_eq!(trie.greedy_tokenize(b"ab").unwrap(), vec![2]);
    assert_eq!(trie.greedy_tokenize(b"ba").unwrap(), vec![1, 0]);
    assert_eq!(trie.greedy_tokenize(b"aab").unwrap(), vec![0, 2]);
}

#[test]
fn greedy_missing_coverage() {
    let trie = build(&["a", "b"]);
    assert_eq!(
        trie.greedy_tokenize(b"az"),
        Err(TrieError::MissingByteCoverage)
    );
}

#[test]
fn empty_vocab_bias() {
    // vocab of size zero: no bits can be set
    let trie = build(&[]);
    let mut r = MockRec::new(vec!["anything"], true, true);
    let mut set = trie.alloc_token_set();
    trie.compute_bias(&mut r, &mut set);
    assert_eq!(set.num_set(), 0);
    // only empty-byte tokens: same outcome, eos out of byte reach
    let trie2 = build(&["", ""]);
    let mut set2 = trie2.alloc_token_set();
    let mut r2 = MockRec::new(vec!["x"], false, false);
    trie2.compute_bias(&mut r2, &mut set2);
    assert_eq!(set2.num_set(), 0);
}

#[test]
fn single_byte_vocab_bias() {
    // recognizer accepts only "b": exactly that bit is set
    let trie = build(&["a", "b", "c"]);
    let mut r = MockRec::new(vec!["b"], false, false);
    let mut set = trie.alloc_token_set();
    trie.compute_bias(&mut r, &mut set);
    assert!(!set.is_allowed(0));
    assert!(set.is_allowed(1));
    assert!(!set.is_allowed(2));
    assert_eq!(set.num_set(), 1);
}

#[test]
fn prefix_tokens_bias() {
    // recognizer accepts "ab" and "abc" whole; "abd" is rejected
    let trie = build(&["ab", "abc", "abd"]);
    let mut r = MockRec::new(vec!["ab", "abc"], false, false);
    let mut set = trie.alloc_token_set();
    trie.compute_bias(&mut r, &mut set);
    assert!(set.is_allowed(0));
    assert!(set.is_allowed(1));
    assert!(!set.is_allowed(2));
    assert_eq!(set.num_set(), 2);
}

#[test]
fn bias_idempotent() {
    let trie = build(&["ab", "abc", "abd"]);
    let mut r = MockRec::new(vec!["ab", "abc"], false, false);
    let mut s1 = trie.alloc_token_set();
    trie.compute_bias(&mut r, &mut s1);
    let mut s2 = trie.alloc_token_set();
    trie.compute_bias(&mut r, &mut s2);
    for t in 0..4u32 {
        assert_eq!(s1.is_allowed(t), s2.is_allowed(t));
    }
}

#[test]
fn pop_balance() {
    // after a traversal from the root the recognizer's stack is already
    // balanced when trie_finished runs
    let trie = build(&["a", "ab", "abc", "ax", "b", "qrs"]);
    let mut r = MockRec::new(vec!["ab", "qr"], false, false);
    let mut set = trie.alloc_token_set();
    trie.compute_bias(&mut r, &mut set);
    assert_eq!(r.finish_depths.last(), Some(&0));
    assert_eq!(r.total_pushes, r.total_pops);
}

#[test]
fn special_prefix_tokens() {
    let words: Vec<Vec<u8>> = vec![
        b"a".to_vec(),
        b"b".to_vec(),
        b"c".to_vec(),
        b"d".to_vec(),
        b"e".to_vec(),
        b"f".to_vec(),
        b"g".to_vec(),
        {
            let mut w = vec![0xffu8];
            w.extend_from_slice(b"<|eos|>");
            w
        },
    ];
    let info = TokRxInfo::new(8, 0);
    let trie = TokTrie::from(&info, &words).unwrap();
    assert_eq!(trie.get_special_token("<|eos|>"), Some(7));
    assert_eq!(trie.get_special_token("<|bos|>"), None);
    assert_eq!(trie.get_special_tokens(), vec![7]);
    let decoded = trie.decode(&[7]);
    assert_eq!(decoded, b"<|eos|>".to_vec());
    let raw = trie.decode_raw(&[7]);
    assert!(raw.contains(&0xff));
    assert_eq!(raw[0], 0xff);
}

#[test]
fn duplicates_mirrored() {
    // ids 3 and 4 share the bytes "cat"; a recognizer accepting "cat"
    // biases both
    let trie = build(&["a", "b", "c", "cat", "cat"]);
    let mut r = MockRec::new(vec!["cat"], false, false);
    let mut set = trie.alloc_token_set();
    trie.compute_bias(&mut r, &mut set);
    assert!(set.is_allowed(3));
    assert!(set.is_allowed(4));
    assert!(set.is_allowed(2)); // "c" is a prefix of "cat", accepted too
    assert!(!set.is_allowed(0));
}

#[test]
fn chop() {
    // the recognizer stands just past "ba" and accepts any extension, so
    // every relative push is viable; only the trailing "bar" needs
    // chopping, because "ba" still has valid continuations
    let trie = build(&["foo", "bar", "bar_baz"]);
    let mut r = MockRec::new(vec![""], true, false);
    let (ct, cb) = trie.chop_tokens(&mut r, &[0, 1]);
    assert_eq!((ct, cb), (1, 3));
}

#[test]
fn binary_round_trip() {
    let trie = build(&["a", "b", "ab", "cat", "cat", ""]);
    let img = trie.serialize();
    let back = TokTrie::from_bytes(&img).expect("image loads");
    assert_eq!(back.node_count(), trie.node_count());
    assert_eq!(back.vocab_size(), trie.vocab_size());
    assert_eq!(back.eos_token(), trie.eos_token());
    assert_eq!(back.token_data_len(), trie.token_data_len());
    for t in 0..trie.vocab_size() as u32 {
        assert_eq!(back.token(t), trie.token(t));
    }
    assert_eq!(back.serialize(), img);
}

#[test]
fn bad_format() {
    assert!(matches!(
        TokTrie::from_bytes(b"short"),
        Err(TrieError::BadFormat)
    ));
}

#[test]
fn misplaced_label_rejected() {
    // an image whose node labels do not sit on their own tokens' byte
    // paths must not load: here two tokens share the bytes "z", but one
    // label is planted on an unrelated "x" node
    fn le(out: &mut Vec<u8>, x: u32) {
        out.extend_from_slice(&x.to_le_bytes());
    }
    fn node(out: &mut Vec<u8>, byte: u8, token: u32, np: u32, size: u32) {
        le(out, (token << 8) | byte as u32);
        le(out, np | (size << 8));
    }
    let no_token = 0xffffff;
    let mut img = Vec::new();
    le(&mut img, 0x558b6fd3); // magic
    le(&mut img, 28); // header size
    le(&mut img, 3 * 8); // three nodes
    le(&mut img, 2 * 4); // two descriptors
    le(&mut img, 1); // one data byte
    le(&mut img, 2); // vocab_size
    le(&mut img, 0); // tok_eos
    node(&mut img, 0xff, no_token, 0, 3); // root
    node(&mut img, b'x' as u8, 1, 1, 1); // label 1 planted off its path
    node(&mut img, b'z' as u8, 0, 1, 1); // label 0 at "z"
    le(&mut img, 1 | (0 << 10)); // token 0: "z"
    le(&mut img, 1 | (0 << 10)); // token 1: "z" too
    img.push(b'z');
    assert!(matches!(
        toktrie::trie::TokTrie::from_bytes(&img),
        Err(TrieError::InvariantViolation)
    ));
}

#[test]
fn bad_magic() {
    let trie = build(&["a"]);
    let mut img = trie.serialize();
    img[0] ^= 0xff;
    assert!(matches!(TokTrie::from_bytes(&img), Err(TrieError::BadFormat)));
}

#[test]
fn construction_invariants() {
    // a word of 1024 bytes or more is rejected
    let big = vec![b'x'; 1024];
    let info = TokRxInfo::new(1, 0);
    assert!(matches!(
        TokTrie::from(&info, &vec![big]),
        Err(TrieError::InvariantViolation)
    ));
    // a vocabulary-size mismatch is rejected
    let info2 = TokRxInfo::new(3, 0);
    assert!(matches!(
        TokTrie::from(&info2, &vec![b"a".to_vec()]),
        Err(TrieError::InvariantViolation)
    ));
}

#[test]
fn token_allowed_and_append() {
    let trie = build(&["a", "ab", "b"]);
    let mut r = MockRec::new(vec!["ab"], false, false);
    assert!(trie.token_allowed(&mut r, 1));
    assert!(trie.token_allowed(&mut r, 0));
    assert!(!trie.token_allowed(&mut r, 2));
    let mut r2 = MockRec::new(vec!["ab"], false, false);
    assert_eq!(trie.append_token(&mut r2, 1), Ok(()));
    let mut r3 = MockRec::new(vec!["ab"], false, false);
    assert_eq!(
        trie.append_token(&mut r3, 2),
        Err(TrieError::ByteNotAllowed(b'b'))
    );
    let mut r4 = MockRec::new(vec!["ab"], false, false);
    assert_eq!(trie.append_tokens(&mut r4, &[0]), Ok(()));
}

#[test]
fn token_set_ops() {
    let trie = build(&["a", "b", "c"]);
    let mut set = trie.alloc_token_set();
    assert_eq!(set.len(), 4);
    assert_eq!(set.num_set(), 0);
    set.allow_token(1);
    set.allow_token(2);
    assert_eq!(set.num_set(), 2);
    set.disallow_token(2);
    assert_eq!(set.num_set(), 1);
    assert!(set.is_allowed(1));
    assert!(!set.is_allowed(0));
    let neg = set.negated();
    assert!(!neg.is_allowed(1));
    assert!(neg.is_allowed(0));
    assert_eq!(neg.num_set(), 3);
    set.set_all(true);
    assert_eq!(set.num_set(), 4);
    let single = trie.singleton_token_set(2);
    assert!(single.is_allowed(2));
    assert_eq!(single.num_set(), 1);
}

#[test]
fn all_subtokens_enumerates() {
    let trie = build(&["a", "b", "ab"]);
    let mut subs = trie.all_subtokens(b"ab");
    subs.sort();
    assert_eq!(subs, vec![0, 1, 2]);
}

#[test]
fn check_against_vocab() {
    let words: Vec<Vec<u8>> = vec![b"a".to_vec(), b"cat".to_vec(), b"cat".to_vec()];
    let info = TokRxInfo::new(3, 0);
    let trie = TokTrie::from(&info, &words).unwrap();
    assert!(trie.check_against(&words));
    let other: Vec<Vec<u8>> = vec![b"a".to_vec(), b"cat".to_vec(), b"dog".to_vec()];
    assert!(!trie.check_against(&other));
    let short: Vec<Vec<u8>> = vec![b"a".to_vec()];
    assert!(!trie.check_against(&short));
}

#[test]
fn sorted_tokens_lexicographic() {
    let trie = build(&["b", "a", "ab"]);
    let st = trie.sorted_tokens();
    assert_eq!(st.len(), 3);
    assert_eq!(st[0], (1, b"a".to_vec()));
    assert_eq!(st[1], (2, b"ab".to_vec()));
    assert_eq!(st[2], (0, b"b".to_vec()));
}

#[test]
fn eos_and_chat_mode() {
    let (mut info, ws) = vocab(&["a", "b"]);
    info.tok_eos = 1;
    info.tok_end_of_turn = Some(0);
    let trie = TokTrie::from(&info, &ws).unwrap();
    assert_eq!(trie.eos_token(), 1);
    let with_eos = trie.with_eos_token(0);
    assert_eq!(with_eos.eos_token(), 0);
    assert_eq!(with_eos.node_count(), trie.node_count());
    let chat = trie.build_chat_mode_trie();
    assert_eq!(chat.eos_token(), 0);
    assert_eq!(trie.special_token(SpecialToken::EndOfSentence), 1);
}

#[test]
fn eos_bias_when_allowed() {
    let trie = {
        let (mut info, ws) = vocab(&["a", "b"]);
        info.tok_eos = 1;
        TokTrie::from(&info, &ws).unwrap()
    };
    let mut r = MockRec::new(vec![], false, true);
    let mut set = trie.alloc_token_set();
    trie.compute_bias(&mut r, &mut set);
    assert!(set.is_allowed(1));
    assert_eq!(set.num_set(), 1);
}

#[test]
fn compute_bias_ext_prefix_tokens() {
    // tokens equal to a prefix of the forced start are allowed even when
    // the recognizer rejects everything
    let trie = build(&["a", "ab", "abc"]);
    let mut r = MockRec::new(vec![], false, false);
    let mut set = trie.alloc_token_set();
    trie.compute_bias_ext(&mut r, &mut set, b"ab");
    assert!(set.is_allowed(0));
    assert!(set.is_allowed(1));
    assert!(!set.is_allowed(2));
}
