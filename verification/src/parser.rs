//! The boot environment file: lines of `key=value`, each ended by `\n`
//! (optionally preceded by `\r`).
use vstd::prelude::*;
use vstd::utf8::{decode_utf8, pop_first_scalar, valid_utf8};

use vstd::utf8::encode_utf8;

use crate::bytes::{
    bytes_less, bytes_lt, lemma_bytes_lt_irreflexive, lemma_bytes_lt_total,
    lemma_bytes_lt_transitive,
};
use crate::utf8::{lemma_valid_utf8_split_at_ascii, str_from_utf8};

verus! {

/// Byte that ends a line.
pub const NEWLINE: u8 = 0x0a;

/// Byte dropped from the end of a line before it is read.
pub const CARRIAGE_RETURN: u8 = 0x0d;

/// Byte that separates a key from its value.
pub const EQUALS: u8 = 0x3d;

/// `i` is the index of the first `b` in `s`.
pub open spec fn is_first_byte(s: Seq<u8>, b: u8, i: int) -> bool {
    &&& 0 <= i < s.len()
    &&& s[i] == b
    &&& forall|j: int| 0 <= j < i ==> s[j] != b
}

/// The index of the first `b` in `s`, if there is one.
pub open spec fn find_byte(s: Seq<u8>, b: u8) -> Option<int> {
    if exists|i: int| is_first_byte(s, b, i) {
        Some(choose|i: int| is_first_byte(s, b, i))
    } else {
        None
    }
}

/// The line without one trailing `\r`.
pub open spec fn strip_cr(line: Seq<u8>) -> Seq<u8> {
    if line.len() > 0 && line.last() == CARRIAGE_RETURN {
        line.drop_last()
    } else {
        line
    }
}

/// The key and value bytes of a line: split at its first `=`, where that
/// `=` is neither the first nor the last byte.
pub open spec fn split_entry(line: Seq<u8>) -> Option<(Seq<u8>, Seq<u8>)> {
    match find_byte(line, EQUALS) {
        Some(i) => if i != line.len() - 1 && i != 0 {
            Some((line.take(i), line.skip(i + 1)))
        } else {
            None
        },
        None => None,
    }
}

/// The configuration after reading one line (without its `\n`): a line
/// that is well-formed UTF-8 once its `\r` is dropped, and that splits into
/// a key and a value, sets that key; every other line changes nothing.
pub open spec fn apply_line(acc: Map<Seq<char>, Seq<char>>, line: Seq<u8>) -> Map<
    Seq<char>,
    Seq<char>,
> {
    let clean = strip_cr(line);
    if valid_utf8(clean) {
        match split_entry(clean) {
            Some((k, v)) => acc.insert(decode_utf8(k), decode_utf8(v)),
            None => acc,
        }
    } else {
        acc
    }
}

/// The configuration after reading, from `acc`, every line of `s` that is
/// ended by `\n`, in order; bytes after the last `\n` are not read.
pub open spec fn parse_lines(acc: Map<Seq<char>, Seq<char>>, s: Seq<u8>) -> Map<
    Seq<char>,
    Seq<char>,
>
    decreases s.len(),
{
    if exists|i: int| is_first_byte(s, NEWLINE, i) {
        let i = choose|i: int| is_first_byte(s, NEWLINE, i);
        parse_lines(apply_line(acc, s.take(i)), s.skip(i + 1))
    } else {
        acc
    }
}

/// The configuration that an environment file holds.
pub open spec fn parse_env_spec(bytes: Seq<u8>) -> Map<Seq<char>, Seq<char>> {
    parse_lines(Map::empty(), bytes)
}

/// The map that a list of pairs describes; a later pair wins over an
/// earlier one with the same key.
pub open spec fn pairs_map(s: Seq<(String, String)>) -> Map<Seq<char>, Seq<char>>
    decreases s.len(),
{
    if s.len() == 0 {
        Map::empty()
    } else {
        pairs_map(s.drop_last()).insert(s.last().0@, s.last().1@)
    }
}

/// No two pairs have the same key.
pub open spec fn keys_distinct(s: Seq<(String, String)>) -> bool {
    forall|i: int, j: int| 0 <= i < j < s.len() ==> s[i].0@ != s[j].0@
}

/// The keys are in strictly increasing order of their UTF-8 bytes.
pub open spec fn keys_sorted(s: Seq<(String, String)>) -> bool {
    forall|i: int, j: int|
        0 <= i < j < s.len() ==> bytes_lt(encode_utf8(s[i].0@), encode_utf8(s[j].0@))
}

/// Sorted keys are distinct.
proof fn lemma_sorted_keys_distinct(s: Seq<(String, String)>)
    requires
        keys_sorted(s),
    ensures
        keys_distinct(s),
{
    assert forall|i: int, j: int| 0 <= i < j < s.len() implies s[i].0@ != s[j].0@ by {
        if s[i].0@ == s[j].0@ {
            lemma_bytes_lt_irreflexive(encode_utf8(s[i].0@));
        }
    }
}

/// A parsed boot configuration: each key once, with its value, in
/// increasing order of the keys' bytes.
pub struct EnvConfig {
    entries: Vec<(String, String)>,
}

impl View for EnvConfig {
    type V = Map<Seq<char>, Seq<char>>;

    closed spec fn view(&self) -> Map<Seq<char>, Seq<char>> {
        pairs_map(self.entries@)
    }
}

impl EnvConfig {
    #[verifier::type_invariant]
    closed spec fn inv(&self) -> bool {
        keys_sorted(self.entries@)
    }

    /// The value of `key`, if the configuration sets it.
    pub fn get(&self, key: &String) -> (r: Option<&String>)
        ensures
            match r {
                Some(v) => self@.contains_key(key@) && self@[key@] == v@,
                None => !self@.contains_key(key@),
            },
    {
        proof {
            use_type_invariant(self);
            lemma_sorted_keys_distinct(self.entries@);
        }
        let mut i: usize = 0;
        while i < self.entries.len()
            invariant
                0 <= i <= self.entries@.len(),
                keys_distinct(self.entries@),
                forall|j: int| 0 <= j < i ==> self.entries@[j].0@ != key@,
            decreases self.entries@.len() - i,
        {
            if self.entries[i].0 == *key {
                proof {
                    lemma_pairs_map_lookup(self.entries@, i as int);
                }
                return Some(&self.entries[i].1);
            }
            i = i + 1;
        }
        proof {
            lemma_pairs_map_absent(self.entries@, key@);
        }
        None
    }

    /// The pairs of the configuration, each key once, in increasing order
    /// of the keys' UTF-8 bytes (the order of a `BTreeMap<String, _>`).
    pub fn entries(&self) -> (r: &Vec<(String, String)>)
        ensures
            keys_sorted(r@),
            keys_distinct(r@),
            pairs_map(r@) == self@,
    {
        proof {
            use_type_invariant(self);
            lemma_sorted_keys_distinct(self.entries@);
        }
        &self.entries
    }
}

/// Each pair's key is in the map, with that pair's value.
pub proof fn lemma_pairs_map_lookup(s: Seq<(String, String)>, i: int)
    requires
        keys_distinct(s),
        0 <= i < s.len(),
    ensures
        pairs_map(s).contains_key(s[i].0@),
        pairs_map(s)[s[i].0@] == s[i].1@,
    decreases s.len(),
{
    if i < s.len() - 1 {
        lemma_pairs_map_lookup(s.drop_last(), i);
    }
}

/// A key that no pair has is not in the map.
pub proof fn lemma_pairs_map_absent(s: Seq<(String, String)>, k: Seq<char>)
    requires
        forall|j: int| 0 <= j < s.len() ==> s[j].0@ != k,
    ensures
        !pairs_map(s).contains_key(k),
    decreases s.len(),
{
    if s.len() > 0 {
        lemma_pairs_map_absent(s.drop_last(), k);
    }
}

/// Replacing the pair of a key sets that key in the map.
proof fn lemma_pairs_map_update(s: Seq<(String, String)>, i: int, kv: (String, String))
    requires
        keys_distinct(s),
        0 <= i < s.len(),
        s[i].0@ == kv.0@,
    ensures
        pairs_map(s.update(i, kv)) == pairs_map(s).insert(kv.0@, kv.1@),
    decreases s.len(),
{
    let t = s.update(i, kv);
    if i == s.len() - 1 {
        assert(t.drop_last() =~= s.drop_last());
        assert(pairs_map(t) =~= pairs_map(s).insert(kv.0@, kv.1@));
    } else {
        assert(t.drop_last() =~= s.drop_last().update(i, kv));
        lemma_pairs_map_update(s.drop_last(), i, kv);
        assert(s.last().0@ != kv.0@);
        assert(pairs_map(t) =~= pairs_map(s).insert(kv.0@, kv.1@));
    }
}

/// Adding a pair with a new key, anywhere, sets that key in the map.
proof fn lemma_pairs_map_insert(s: Seq<(String, String)>, p: int, kv: (String, String))
    requires
        0 <= p <= s.len(),
        forall|j: int| 0 <= j < s.len() ==> s[j].0@ != kv.0@,
    ensures
        pairs_map(s.insert(p, kv)) == pairs_map(s).insert(kv.0@, kv.1@),
    decreases s.len(),
{
    let t = s.insert(p, kv);
    if p == s.len() {
        assert(t.drop_last() =~= s);
    } else {
        assert(t.drop_last() =~= s.drop_last().insert(p, kv));
        assert(t.last() == s.last());
        lemma_pairs_map_insert(s.drop_last(), p, kv);
        assert(pairs_map(t) =~= pairs_map(s).insert(kv.0@, kv.1@));
    }
}

/// Equal UTF-8 bytes are equal text.
proof fn lemma_encode_utf8_injective(a: Seq<char>, b: Seq<char>)
    requires
        encode_utf8(a) == encode_utf8(b),
    ensures
        a == b,
{
    vstd::utf8::encode_utf8_decode_utf8(a);
    vstd::utf8::encode_utf8_decode_utf8(b);
}

/// Sets `key` to `value`: in place where the key already has a pair, at
/// its place in key order otherwise.
fn insert_entry(entries: &mut Vec<(String, String)>, key: String, value: String)
    requires
        keys_sorted(old(entries)@),
    ensures
        keys_sorted(final(entries)@),
        pairs_map(final(entries)@) == pairs_map(old(entries)@).insert(key@, value@),
{
    let ghost kb = encode_utf8(key@);
    let mut i: usize = 0;
    while i < entries.len() && bytes_less(entries[i].0.as_str().as_bytes(), key.as_str().as_bytes())
        invariant
            0 <= i <= entries@.len(),
            entries@ == old(entries)@,
            keys_sorted(entries@),
            kb == encode_utf8(key@),
            forall|j: int| 0 <= j < i ==> bytes_lt(encode_utf8(#[trigger] entries@[j].0@), kb),
        decreases entries@.len() - i,
    {
        i = i + 1;
    }
    let ghost before = entries@;
    proof {
        lemma_sorted_keys_distinct(before);
    }
    if i < entries.len() && entries[i].0 == key {
        let ghost kv = (key, value);
        proof {
            lemma_pairs_map_update(before, i as int, kv);
        }
        entries.set(i, (key, value));
        assert(entries@ == before.update(i as int, kv));
        assert(keys_sorted(entries@)) by {
            assert forall|a: int, b: int| 0 <= a < b < entries@.len() implies bytes_lt(
                encode_utf8(entries@[a].0@),
                encode_utf8(entries@[b].0@),
            ) by {
                assert(before[a].0@ == entries@[a].0@);
                assert(before[b].0@ == entries@[b].0@);
            }
        }
    } else {
        proof {
            assert forall|j: int| 0 <= j < before.len() implies before[j].0@ != key@ by {
                if j < i {
                    assert(bytes_lt(encode_utf8(before[j].0@), kb));
                    if before[j].0@ == key@ {
                        lemma_bytes_lt_irreflexive(kb);
                    }
                } else {
                    if i < before.len() {
                        if j > i {
                            assert(bytes_lt(encode_utf8(before[i as int].0@), encode_utf8(before[j].0@)));
                        }
                        assert(before[i as int].0@ != key@);
                        if encode_utf8(before[i as int].0@) == kb {
                            lemma_encode_utf8_injective(before[i as int].0@, key@);
                        }
                        lemma_bytes_lt_total(encode_utf8(before[i as int].0@), kb);
                        assert(bytes_lt(kb, encode_utf8(before[i as int].0@)));
                        if j > i {
                            lemma_bytes_lt_transitive(kb, encode_utf8(before[i as int].0@), encode_utf8(before[j].0@));
                        }
                        if before[j].0@ == key@ {
                            lemma_bytes_lt_irreflexive(kb);
                        }
                    }
                }
            }
        }
        let ghost kv = (key, value);
        proof {
            lemma_pairs_map_insert(before, i as int, kv);
        }
        entries.insert(i, (key, value));
        assert(entries@ == before.insert(i as int, kv));
        assert(keys_sorted(entries@)) by {
            if i < before.len() {
                assert(before[i as int].0@ != key@);
                if encode_utf8(before[i as int].0@) == kb {
                    lemma_encode_utf8_injective(before[i as int].0@, key@);
                }
                lemma_bytes_lt_total(encode_utf8(before[i as int].0@), kb);
            }
            assert forall|a: int, b: int| 0 <= a < b < entries@.len() implies bytes_lt(
                encode_utf8(entries@[a].0@),
                encode_utf8(entries@[b].0@),
            ) by {
                if a < i && b == i {
                } else if a < i && b > i {
                    assert(entries@[b] == before[b - 1]);
                } else if a == i {
                    assert(entries@[b] == before[b - 1]);
                    if b - 1 > i {
                        lemma_bytes_lt_transitive(
                            kb,
                            encode_utf8(before[i as int].0@),
                            encode_utf8(before[b - 1].0@),
                        );
                    }
                } else if b < i {
                    assert(entries@[b] == before[b]);
                    assert(entries@[a] == before[a]);
                } else {
                    assert(entries@[b] == before[b - 1]);
                    assert(entries@[a] == before[a - 1]);
                }
            }
        }
    }
}

/// The index of the first `b` in `s`, if there is one.
pub fn position(s: &[u8], b: u8) -> (r: Option<usize>)
    ensures
        match r {
            Some(i) => find_byte(s@, b) == Some(i as int),
            None => find_byte(s@, b) is None,
        },
{
    let mut i: usize = 0;
    while i < s.len()
        invariant
            0 <= i <= s@.len(),
            forall|j: int| 0 <= j < i ==> s@[j] != b,
        decreases s@.len() - i,
    {
        if s[i] == b {
            proof {
                assert(is_first_byte(s@, b, i as int));
                let c = choose|c: int| is_first_byte(s@, b, c);
                assert(c == i) by {
                    if c < i {
                        assert(s@[c] != b);
                    } else if c > i {
                        assert(s@[i as int] != b);
                    }
                }
            }
            return Some(i);
        }
        i = i + 1;
    }
    proof {
        if exists|c: int| is_first_byte(s@, b, c) {
            let c = choose|c: int| is_first_byte(s@, b, c);
            assert(s@[c] != b);
        }
    }
    None
}

/// Reads a boot environment file. Each line ended by `\n` is read in turn,
/// without a trailing `\r`: a line that is well-formed UTF-8 and has a
/// first `=` that is neither its first nor its last byte sets the key
/// before that `=` to the text after it, replacing an earlier value; other
/// lines are skipped. Bytes after the last `\n` are not read.
pub fn parse_env(bytes: Vec<u8>) -> (configs: EnvConfig)
    ensures
        configs@ == parse_env_spec(bytes@),
{
    let mut entries: Vec<(String, String)> = Vec::new();
    let mut slice: &[u8] = bytes.as_slice();
    assert(pairs_map(entries@) =~= Map::<Seq<char>, Seq<char>>::empty());
    loop
        invariant
            keys_sorted(entries@),
            parse_lines(pairs_map(entries@), slice@) == parse_env_spec(bytes@),
        ensures
            keys_sorted(entries@),
            pairs_map(entries@) == parse_env_spec(bytes@),
        decreases slice@.len(),
    {
        match position(slice, NEWLINE) {
            None => {
                break ;
            },
            Some(index) => {
                let ghost acc = pairs_map(entries@);
                let ghost prev = slice@;
                assert(is_first_byte(prev, NEWLINE, index as int));
                let ghost line = slice@.take(index as int);
                let line_slice: &[u8] = &slice[0..index];
                assert(line_slice@ =~= line);
                let clean_line: &[u8] = if index > 0 && line_slice[index - 1] == CARRIAGE_RETURN {
                    &line_slice[0..index - 1]
                } else {
                    line_slice
                };
                assert(clean_line@ =~= strip_cr(line));
                if let Some(_line) = str_from_utf8(clean_line) {
                    if let Some(eq) = position(clean_line, EQUALS) {
                        let len = clean_line.len();
                        if eq != len - 1 && eq != 0 {
                            let key_bytes: &[u8] = &clean_line[0..eq];
                            let value_bytes: &[u8] = &clean_line[eq + 1..len];
                            proof {
                                let rest = clean_line@.skip(eq as int);
                                assert(clean_line@ =~= key_bytes@ + rest);
                                lemma_valid_utf8_split_at_ascii(key_bytes@, rest);
                                assert(pop_first_scalar(rest) =~= value_bytes@);
                                assert(key_bytes@ =~= clean_line@.take(eq as int));
                                assert(value_bytes@ =~= clean_line@.skip(eq + 1));
                            }
                            let key = str_from_utf8(key_bytes);
                            let value = str_from_utf8(value_bytes);
                            match (key, value) {
                                (Some(k), Some(v)) => {
                                    insert_entry(&mut entries, k, v);
                                },
                                _ => {},
                            }
                        }
                    }
                }
                assert(pairs_map(entries@) == apply_line(acc, line));
                let slen = slice.len();
                slice = &slice[index + 1..slen];
                assert(slice@ =~= prev.skip(index + 1));
            },
        }
    }
    EnvConfig { entries }
}

/// The first `b` of a sequence is at one index only.
proof fn lemma_first_byte_unique(s: Seq<u8>, b: u8, i: int, j: int)
    requires
        is_first_byte(s, b, i),
        is_first_byte(s, b, j),
    ensures
        i == j,
{
    if i < j {
        assert(s[i] != b);
    } else if j < i {
        assert(s[j] != b);
    }
}

/// Reading `a + t` from `acc`, where `t` holds no `\n`, reads just `a`.
proof fn lemma_parse_lines_tail(acc: Map<Seq<char>, Seq<char>>, a: Seq<u8>, t: Seq<u8>)
    requires
        forall|k: int| 0 <= k < t.len() ==> t[k] != NEWLINE,
    ensures
        parse_lines(acc, a + t) == parse_lines(acc, a),
    decreases a.len(),
{
    let s = a + t;
    if exists|i: int| is_first_byte(a, NEWLINE, i) {
        let i = choose|i: int| is_first_byte(a, NEWLINE, i);
        assert(is_first_byte(s, NEWLINE, i));
        let c = choose|c: int| is_first_byte(s, NEWLINE, c);
        lemma_first_byte_unique(s, NEWLINE, i, c);
        assert(s.take(i) =~= a.take(i));
        assert(s.skip(i + 1) =~= a.skip(i + 1) + t);
        lemma_parse_lines_tail(apply_line(acc, a.take(i)), a.skip(i + 1), t);
    } else {
        if exists|c: int| is_first_byte(s, NEWLINE, c) {
            let c = choose|c: int| is_first_byte(s, NEWLINE, c);
            if c < a.len() {
                assert forall|j: int| 0 <= j <= c implies a[j] == s[j] by {}
                assert(is_first_byte(a, NEWLINE, c));
            } else {
                assert(t[c - a.len()] == s[c]);
            }
        }
    }
}

/// Reading `a + b` from `acc`, where `a` is whole lines, reads `a` and then
/// `b`.
proof fn lemma_parse_lines_concat(acc: Map<Seq<char>, Seq<char>>, a: Seq<u8>, b: Seq<u8>)
    requires
        a.len() == 0 || a.last() == NEWLINE,
    ensures
        parse_lines(acc, a + b) == parse_lines(parse_lines(acc, a), b),
    decreases a.len(),
{
    let s = a + b;
    if a.len() == 0 {
        assert(s =~= b);
        if exists|c: int| is_first_byte(a, NEWLINE, c) {
            let c = choose|c: int| is_first_byte(a, NEWLINE, c);
        }
    } else {
        assert(a[a.len() - 1] == NEWLINE);
        assert(exists|i: int| is_first_byte(a, NEWLINE, i)) by {
            lemma_first_byte_exists(a, NEWLINE, a.len() - 1);
        }
        let i = choose|i: int| is_first_byte(a, NEWLINE, i);
        assert(is_first_byte(s, NEWLINE, i));
        let c = choose|c: int| is_first_byte(s, NEWLINE, c);
        lemma_first_byte_unique(s, NEWLINE, i, c);
        assert(s.take(i) =~= a.take(i));
        assert(s.skip(i + 1) =~= a.skip(i + 1) + b);
        let rest = a.skip(i + 1);
        assert(rest.len() == 0 || rest.last() == NEWLINE);
        lemma_parse_lines_concat(apply_line(acc, a.take(i)), rest, b);
    }
}

/// A sequence that holds `b` somewhere has a first `b`.
proof fn lemma_first_byte_exists(s: Seq<u8>, b: u8, k: int)
    requires
        0 <= k < s.len(),
        s[k] == b,
    ensures
        exists|i: int| is_first_byte(s, b, i),
    decreases k,
{
    if forall|j: int| 0 <= j < k ==> s[j] != b {
        assert(is_first_byte(s, b, k));
    } else {
        let j = choose|j: int| 0 <= j < k && s[j] == b;
        lemma_first_byte_exists(s, b, j);
    }
}

/// Bytes after the last `\n` never change the configuration read.
pub proof fn lemma_parse_env_ignores_unterminated_tail(a: Seq<u8>, t: Seq<u8>)
    requires
        forall|k: int| 0 <= k < t.len() ==> t[k] != NEWLINE,
    ensures
        parse_env_spec(a + t) == parse_env_spec(a),
{
    lemma_parse_lines_tail(Map::empty(), a, t);
}

/// Reading a file that starts with whole lines `a` is reading `a`, then
/// carrying on from that configuration with the rest.
pub proof fn lemma_parse_env_concat(a: Seq<u8>, b: Seq<u8>)
    requires
        a.len() == 0 || a.last() == NEWLINE,
    ensures
        parse_env_spec(a + b) == parse_lines(parse_env_spec(a), b),
{
    lemma_parse_lines_concat(Map::empty(), a, b);
}

/// Reading one line ended by `\n` from `acc` applies that line.
proof fn lemma_parse_lines_one_line(acc: Map<Seq<char>, Seq<char>>, line: Seq<u8>)
    requires
        forall|k: int| 0 <= k < line.len() ==> line[k] != NEWLINE,
    ensures
        parse_lines(acc, line + seq![NEWLINE]) == apply_line(acc, line),
{
    let b = line + seq![NEWLINE];
    let n = line.len() as int;
    assert forall|j: int| 0 <= j < n implies b[j] != NEWLINE by {
        assert(b[j] == line[j]);
    }
    assert(is_first_byte(b, NEWLINE, n));
    let c = choose|c: int| is_first_byte(b, NEWLINE, c);
    lemma_first_byte_unique(b, NEWLINE, n, c);
    assert(b.take(n) =~= line);
    let e = b.skip(n + 1);
    assert(e =~= Seq::<u8>::empty());
    assert(!exists|i: int| is_first_byte(e, NEWLINE, i));
    assert(parse_lines(apply_line(acc, line), e) == apply_line(acc, line));
}

/// The line `key=value` splits into that key and value.
proof fn lemma_split_entry_of_line(key: Seq<u8>, value: Seq<u8>)
    requires
        key.len() > 0,
        value.len() > 0,
        forall|k: int| 0 <= k < key.len() ==> key[k] != EQUALS,
    ensures
        split_entry(key + seq![EQUALS] + value) == Some((key, value)),
{
    let line = key + seq![EQUALS] + value;
    let kl = key.len() as int;
    assert forall|j: int| 0 <= j < kl implies line[j] != EQUALS by {
        assert(line[j] == key[j]);
    }
    assert(is_first_byte(line, EQUALS, kl));
    let d = choose|d: int| is_first_byte(line, EQUALS, d);
    lemma_first_byte_unique(line, EQUALS, kl, d);
    assert(line.take(kl) =~= key);
    assert(line.skip(kl + 1) =~= value);
}

/// Appending the line `key=value` to whole lines sets `key` to `value`,
/// over whatever the earlier lines set: for a key that is not empty and
/// holds no `=`, a value that is not empty and does not end in `\r`,
/// neither holding a `\n`, and the line well-formed UTF-8.
pub proof fn lemma_parse_env_line_sets_key(a: Seq<u8>, key: Seq<u8>, value: Seq<u8>)
    requires
        a.len() == 0 || a.last() == NEWLINE,
        key.len() > 0,
        value.len() > 0,
        forall|k: int| 0 <= k < key.len() ==> key[k] != EQUALS && key[k] != NEWLINE,
        forall|k: int| 0 <= k < value.len() ==> value[k] != NEWLINE,
        value.last() != CARRIAGE_RETURN,
        valid_utf8(key + seq![EQUALS] + value),
    ensures
        parse_env_spec(a + (key + seq![EQUALS] + value + seq![NEWLINE])) == parse_env_spec(
            a,
        ).insert(decode_utf8(key), decode_utf8(value)),
{
    let line = key + seq![EQUALS] + value;
    lemma_parse_env_concat(a, line + seq![NEWLINE]);
    assert forall|k: int| 0 <= k < line.len() implies line[k] != NEWLINE by {
        if k < key.len() {
            assert(line[k] == key[k]);
        } else if k > key.len() {
            assert(line[k] == value[k - key.len() - 1]);
        }
    }
    lemma_parse_lines_one_line(parse_env_spec(a), line);
    assert(line.last() == value.last());
    assert(strip_cr(line) == line);
    lemma_split_entry_of_line(key, value);
}

/// A line ended by `\r\n` is read as the same line ended by `\n`, for a
/// line that does not itself end in `\r`.
pub proof fn lemma_parse_env_crlf(a: Seq<u8>, line: Seq<u8>)
    requires
        a.len() == 0 || a.last() == NEWLINE,
        forall|k: int| 0 <= k < line.len() ==> line[k] != NEWLINE,
        line.len() == 0 || line.last() != CARRIAGE_RETURN,
    ensures
        parse_env_spec(a + (line + seq![CARRIAGE_RETURN, NEWLINE])) == parse_env_spec(
            a + (line + seq![NEWLINE]),
        ),
{
    let with_cr = line + seq![CARRIAGE_RETURN];
    assert(line + seq![CARRIAGE_RETURN, NEWLINE] =~= with_cr + seq![NEWLINE]);
    lemma_parse_env_concat(a, with_cr + seq![NEWLINE]);
    lemma_parse_env_concat(a, line + seq![NEWLINE]);
    assert forall|k: int| 0 <= k < with_cr.len() implies with_cr[k] != NEWLINE by {
        if k < line.len() {
            assert(with_cr[k] == line[k]);
        }
    }
    lemma_parse_lines_one_line(parse_env_spec(a), with_cr);
    lemma_parse_lines_one_line(parse_env_spec(a), line);
    assert(strip_cr(with_cr) =~= line);
    assert(strip_cr(line) == line);
}

/// The bytes that the file format is made of: `\n` ends a line, `\r` may
/// precede it, `=` separates key and value.
pub proof fn lemma_env_format_bytes()
    ensures
        NEWLINE == 0x0a,
        CARRIAGE_RETURN == 0x0d,
        EQUALS == 0x3d,
{
}

/// A file without any `\n` sets nothing.
pub proof fn lemma_parse_env_no_line(bytes: Seq<u8>)
    requires
        forall|k: int| 0 <= k < bytes.len() ==> bytes[k] != 0x0a,
    ensures
        parse_env_spec(bytes) == Map::<Seq<char>, Seq<char>>::empty(),
{
    assert forall|i: int| !is_first_byte(bytes, NEWLINE, i) by {
        if 0 <= i < bytes.len() {
            assert(bytes[i] != 0x0a);
        }
    }
}

/// Appending a line that is not well-formed UTF-8, or that has no `=` with
/// text on both sides before any other `=`, leaves the configuration as the
/// earlier whole lines `a` made it: blank lines, comments and broken lines
/// change nothing. (A line ended by `\r\n` reads as the same line ended by
/// `\n`: `lemma_parse_env_crlf`.)
pub proof fn lemma_parse_env_skipped_line(a: Seq<u8>, line: Seq<u8>)
    requires
        a.len() == 0 || a.last() == 0x0a,
        forall|k: int| 0 <= k < line.len() ==> line[k] != 0x0a,
        line.len() == 0 || line.last() != 0x0d,
        !valid_utf8(line) || forall|i: int|
            0 < i < line.len() - 1 && #[trigger] line[i] == 0x3d ==> exists|j: int|
                0 <= j < i && line[j] == 0x3d,
    ensures
        parse_env_spec(a + (line + seq![0x0au8])) == parse_env_spec(a),
{
    lemma_parse_env_concat(a, line + seq![NEWLINE]);
    lemma_parse_lines_one_line(parse_env_spec(a), line);
    assert(strip_cr(line) == line);
    if valid_utf8(line) {
        if exists|i: int| is_first_byte(line, EQUALS, i) {
            let i = choose|i: int| is_first_byte(line, EQUALS, i);
            if 0 < i < line.len() - 1 {
                assert(line[i] == 0x3d);
                let j = choose|j: int| 0 <= j < i && line[j] == 0x3d;
                assert(line[j] != EQUALS);
            }
        }
    }
}

/// Appending one line to whole lines `a` either leaves the configuration as
/// it was or sets one key: no key is ever lost and no other value changes.
pub proof fn lemma_parse_env_line_sets_at_most_one_key(a: Seq<u8>, line: Seq<u8>)
    requires
        a.len() == 0 || a.last() == 0x0a,
        forall|k: int| 0 <= k < line.len() ==> line[k] != 0x0a,
    ensures
        ({
            let before = parse_env_spec(a);
            let after = parse_env_spec(a + (line + seq![0x0au8]));
            ||| after == before
            ||| exists|k: Seq<char>, v: Seq<char>| after == before.insert(k, v)
        }),
{
    lemma_parse_env_concat(a, line + seq![NEWLINE]);
    lemma_parse_lines_one_line(parse_env_spec(a), line);
    let before = parse_env_spec(a);
    let c = strip_cr(line);
    if valid_utf8(c) {
        if let Some((k, v)) = split_entry(c) {
            let after = before.insert(decode_utf8(k), decode_utf8(v));
            assert(after == before.insert(decode_utf8(k), decode_utf8(v)));
        }
    }
}

/// `find_byte` gives the index of the first occurrence of the byte, and
/// nothing exactly when the byte does not occur.
pub proof fn lemma_find_byte_first_occurrence(s: Seq<u8>, b: u8)
    ensures
        match find_byte(s, b) {
            Some(i) => 0 <= i < s.len() && s[i] == b && forall|j: int| 0 <= j < i ==> s[j] != b,
            None => forall|j: int| 0 <= j < s.len() ==> s[j] != b,
        },
{
    if find_byte(s, b) is None {
        assert forall|j: int| 0 <= j < s.len() implies s[j] != b by {
            if s[j] == b {
                lemma_first_byte_exists(s, b, j);
            }
        }
    }
}

/// Appending the line `key=value` ended by `\r\n` sets `key` to `value`,
/// where exactly the one `\r` before the `\n` is dropped: a value that
/// itself ends in `\r` keeps that `\r`.
pub proof fn lemma_parse_env_crlf_line_sets_key(a: Seq<u8>, key: Seq<u8>, value: Seq<u8>)
    requires
        a.len() == 0 || a.last() == 0x0a,
        key.len() > 0,
        value.len() > 0,
        forall|k: int| 0 <= k < key.len() ==> key[k] != 0x3d && key[k] != 0x0a,
        forall|k: int| 0 <= k < value.len() ==> value[k] != 0x0a,
        valid_utf8(key + seq![0x3du8] + value),
    ensures
        parse_env_spec(a + (key + seq![0x3du8] + value + seq![0x0du8, 0x0au8])) == parse_env_spec(
            a,
        ).insert(decode_utf8(key), decode_utf8(value)),
{
    let entry = key + seq![EQUALS] + value;
    let line = entry + seq![CARRIAGE_RETURN];
    assert(key + seq![0x3du8] + value + seq![0x0du8, 0x0au8] =~= line + seq![NEWLINE]);
    lemma_parse_env_concat(a, line + seq![NEWLINE]);
    assert forall|k: int| 0 <= k < line.len() implies line[k] != NEWLINE by {
        if k < key.len() {
            assert(line[k] == key[k]);
        } else if key.len() < k < entry.len() {
            assert(line[k] == value[k - key.len() - 1]);
        }
    }
    lemma_parse_lines_one_line(parse_env_spec(a), line);
    assert(strip_cr(line) =~= entry);
    lemma_split_entry_of_line(key, value);
}

/// The configuration's pairs are ordered by the UTF-8 bytes of their keys,
/// each key strictly before the next (so no key repeats).
pub proof fn lemma_keys_sorted_means(s: Seq<(String, String)>)
    ensures
        keys_sorted(s) <==> forall|i: int, j: int|
            0 <= i < j < s.len() ==> bytes_lt(encode_utf8(s[i].0@), encode_utf8(s[j].0@)),
        keys_distinct(s) <==> forall|i: int, j: int| 0 <= i < j < s.len() ==> s[i].0@ != s[j].0@,
        keys_sorted(s) ==> keys_distinct(s),
{
    if keys_sorted(s) {
        lemma_sorted_keys_distinct(s);
    }
}

} // verus!
