//! The compilation cache: for each compiled binary, the content hash of the
//! source it was last built from, kept in a text file with one
//! `<16 hex digits> <path>` line per binary, and the decision whether a
//! source has to be compiled again.
use vstd::prelude::*;
use crate::number::{hex16, hex16_chars, lemma_hex16_value, lemma_parse_hex16, parse_unsigned, parse_unsigned_range};
use crate::text::{append_chars, append_str, chars_of, copy_range, find_char, find_char_in, lemma_find_char_at, lemma_lines_acc_newline, lines, lines_acc, split_lines, string_of, strip_cr};

verus! {

// ---------------------------------------------------------------------------
// Content hash
// ---------------------------------------------------------------------------

/// The FNV-1a offset basis.
pub const FNV_OFFSET: u64 = 0xcbf29ce484222325;

/// The FNV-1a 64-bit prime.
pub const FNV_PRIME: u64 = 0x100000001b3;

/// One FNV-1a step: xor in the byte, then multiply modulo 2^64.
pub open spec fn fnv_step(h: u64, b: u8) -> u64 {
    (((h ^ (b as u64)) as nat * FNV_PRIME as nat) % 0x1_0000_0000_0000_0000nat) as u64
}

/// The FNV-1a 64-bit hash of `bytes`.
pub open spec fn fnv1a(bytes: Seq<u8>) -> u64
    decreases bytes.len(),
{
    if bytes.len() == 0 {
        FNV_OFFSET
    } else {
        fnv_step(fnv1a(bytes.drop_last()), bytes.last())
    }
}

/// FNV-1a over every byte: the empty input hashes to the offset basis
/// `0xcbf29ce484222325`, and each further byte, whatever its value (a line
/// feed included), is xored in and the result multiplied by the prime
/// `0x100000001b3` modulo 2^64.
pub proof fn lemma_fnv1a_every_byte(bytes: Seq<u8>, b: u8)
    ensures
        fnv1a(Seq::<u8>::empty()) == 0xcbf29ce484222325u64,
        fnv1a(bytes.push(b)) == (((fnv1a(bytes) ^ (b as u64)) as nat * 0x100000001b3nat)
            % 0x1_0000_0000_0000_0000nat) as u64,
{
    assert(bytes.push(b).drop_last() == bytes);
    assert(bytes.push(b).last() == b);
}

/// Inputs that differ only in their last byte hash differently: an edit of
/// the last character of a source is always seen.
pub proof fn lemma_fnv1a_last_byte_seen(bytes: Seq<u8>, a: u8, b: u8)
    requires
        a != b,
    ensures
        fnv1a(bytes.push(a)) != fnv1a(bytes.push(b)),
{
    lemma_fnv1a_every_byte(bytes, a);
    lemma_fnv1a_every_byte(bytes, b);
    let h = fnv1a(bytes);
    let x = h ^ (a as u64);
    let y = h ^ (b as u64);
    assert(x != y) by (bit_vector)
        requires
            a != b,
            x == h ^ (a as u64),
            y == h ^ (b as u64),
    ;
    assert(((x as nat * 0x100000001b3nat) % 0x1_0000_0000_0000_0000nat) as u64 == x.wrapping_mul(
        0x100000001b3u64,
    ));
    assert(((y as nat * 0x100000001b3nat) % 0x1_0000_0000_0000_0000nat) as u64 == y.wrapping_mul(
        0x100000001b3u64,
    ));
    assert(x.wrapping_mul(0x100000001b3u64) != y.wrapping_mul(0x100000001b3u64)) by (bit_vector)
        requires
            x != y,
    ;
}

/// The FNV-1a 64-bit hash of a file's contents.
pub fn fnv1a_hash(bytes: &[u8]) -> (h: u64)
    ensures
        h == fnv1a(bytes@),
{
    let mut h: u64 = FNV_OFFSET;
    let mut i: usize = 0;
    assert(bytes@.take(0) == Seq::<u8>::empty());
    while i < bytes.len()
        invariant
            i <= bytes.len(),
            h == fnv1a(bytes@.take(i as int)),
        decreases bytes.len() - i,
    {
        h = h ^ (bytes[i] as u64);
        h = h.wrapping_mul(FNV_PRIME);
        assert(bytes@.take(i + 1).drop_last() == bytes@.take(i as int));
        assert(bytes@.take(i + 1).last() == bytes@[i as int]);
        i = i + 1;
    }
    assert(bytes@.take(bytes.len() as int) == bytes@);
    h
}

// ---------------------------------------------------------------------------
// Entries: an association list with distinct keys
// ---------------------------------------------------------------------------

/// The position of key `k` in `e`, or `e.len()` when it is absent.
pub open spec fn key_pos(e: Seq<(Seq<char>, u64)>, k: Seq<char>) -> int
    decreases e.len(),
{
    if e.len() == 0 {
        0
    } else if e[0].0 == k {
        0
    } else {
        1 + key_pos(e.drop_first(), k)
    }
}

/// The hash stored for `k`, if any.
pub open spec fn lookup(e: Seq<(Seq<char>, u64)>, k: Seq<char>) -> Option<u64> {
    let p = key_pos(e, k);
    if p < e.len() {
        Some(e[p].1)
    } else {
        None
    }
}

/// `e` with `k` mapped to `h`: the entry of `k` replaced where it is, or a
/// new entry at the end.
pub open spec fn insert_entry(e: Seq<(Seq<char>, u64)>, k: Seq<char>, h: u64) -> Seq<
    (Seq<char>, u64),
> {
    let p = key_pos(e, k);
    if p < e.len() {
        e.update(p, (k, h))
    } else {
        e.push((k, h))
    }
}

/// No key occurs twice.
pub open spec fn distinct_keys(e: Seq<(Seq<char>, u64)>) -> bool {
    forall|i: int, j: int| 0 <= i < j < e.len() ==> #[trigger] e[i].0 != #[trigger] e[j].0
}

/// What [`key_pos`] finds.
pub proof fn lemma_key_pos(e: Seq<(Seq<char>, u64)>, k: Seq<char>)
    ensures
        0 <= key_pos(e, k) <= e.len(),
        key_pos(e, k) < e.len() ==> e[key_pos(e, k)].0 == k,
        forall|j: int| 0 <= j < key_pos(e, k) ==> #[trigger] e[j].0 != k,
    decreases e.len(),
{
    if e.len() > 0 && e[0].0 != k {
        lemma_key_pos(e.drop_first(), k);
        assert forall|j: int| 0 <= j < key_pos(e, k) implies #[trigger] e[j].0 != k by {
            if j > 0 {
                assert(e[j] == e.drop_first()[j - 1]);
            }
        }
    }
}

/// A first occurrence is [`key_pos`].
pub proof fn lemma_key_pos_at(e: Seq<(Seq<char>, u64)>, k: Seq<char>, i: int)
    requires
        0 <= i <= e.len(),
        i < e.len() ==> e[i].0 == k,
        forall|j: int| 0 <= j < i ==> #[trigger] e[j].0 != k,
    ensures
        key_pos(e, k) == i,
    decreases e.len(),
{
    if e.len() > 0 && i > 0 {
        assert(e[0].0 != k);
        assert forall|j: int| 0 <= j < i - 1 implies #[trigger] e.drop_first()[j].0 != k by {
            assert(e.drop_first()[j] == e[j + 1]);
        }
        lemma_key_pos_at(e.drop_first(), k, i - 1);
    }
}

/// Inserting keeps the keys distinct and gives the new hash back.
pub proof fn lemma_insert_entry(e: Seq<(Seq<char>, u64)>, k: Seq<char>, h: u64)
    requires
        distinct_keys(e),
    ensures
        distinct_keys(insert_entry(e, k, h)),
        lookup(insert_entry(e, k, h), k) == Some(h),
        forall|k2: Seq<char>| k2 != k ==> #[trigger] lookup(insert_entry(e, k, h), k2) == lookup(e, k2),
{
    lemma_key_pos(e, k);
    let p = key_pos(e, k);
    let e2 = insert_entry(e, k, h);
    assert forall|i: int, j: int| 0 <= i < j < e2.len() implies #[trigger] e2[i].0 != #[trigger] e2[j].0 by {
        if p < e.len() {
            if i != p && j != p {
                assert(e[i].0 != e[j].0);
            } else if i == p {
                assert(e[j].0 != e[p].0);
            } else {
                assert(e[i].0 != e[p].0);
            }
        } else {
            if j == e.len() {
                assert(e[i].0 != k);
            } else {
                assert(e[i].0 != e[j].0);
            }
        }
    }
    if p < e.len() {
        lemma_key_pos_at(e2, k, p);
    } else {
        lemma_key_pos_at(e2, k, e.len() as int);
    }
    assert forall|k2: Seq<char>| k2 != k implies #[trigger] lookup(e2, k2) == lookup(e, k2) by {
        lemma_key_pos(e, k2);
        let q = key_pos(e, k2);
        if q < e.len() {
            lemma_key_pos_at(e2, k2, q);
        } else if p < e.len() {
            lemma_key_pos_at(e2, k2, e.len() as int);
        } else {
            lemma_key_pos_at(e2, k2, e2.len() as int);
        }
    }
}

/// The hash cache: each path (that of a compiled binary) with a content
/// hash (that of the source the binary was last built from).
pub struct HashCache {
    entries: Vec<(String, u64)>,
}

impl View for HashCache {
    type V = Seq<(Seq<char>, u64)>;

    closed spec fn view(&self) -> Seq<(Seq<char>, u64)> {
        self.entries@.map_values(|e: (String, u64)| (e.0@, e.1))
    }
}

impl HashCache {
    /// Each path occurs once.
    pub open spec fn wf(&self) -> bool {
        distinct_keys(self@)
    }

    /// The empty cache.
    pub fn new() -> (c: HashCache)
        ensures
            c.wf(),
            c@ == Seq::<(Seq<char>, u64)>::empty(),
    {
        let c = HashCache { entries: Vec::new() };
        assert(c@ == Seq::<(Seq<char>, u64)>::empty());
        c
    }

    /// The number of paths in the cache.
    pub fn len(&self) -> (n: usize)
        ensures
            n == self@.len(),
    {
        self.entries.len()
    }

    /// The hash stored for `key`.
    pub fn get(&self, key: &str) -> (r: Option<u64>)
        ensures
            r == lookup(self@, key@),
    {
        let k = key.to_owned();
        let mut i: usize = 0;
        while i < self.entries.len()
            invariant
                i <= self.entries@.len(),
                k@ == key@,
                forall|j: int| 0 <= j < i ==> #[trigger] self@[j].0 != key@,
            decreases self.entries.len() - i,
        {
            if self.entries[i].0 == k {
                proof {
                    lemma_key_pos_at(self@, key@, i as int);
                }
                return Some(self.entries[i].1);
            }
            i = i + 1;
        }
        proof {
            lemma_key_pos_at(self@, key@, self@.len() as int);
        }
        None
    }

    /// Maps `key` to `hash`.
    pub fn insert(&mut self, key: String, hash: u64)
        requires
            old(self).wf(),
        ensures
            final(self).wf(),
            final(self)@ == insert_entry(old(self)@, key@, hash),
    {
        proof {
            lemma_insert_entry(old(self)@, key@, hash);
        }
        let ghost k = key@;
        let mut i: usize = 0;
        while i < self.entries.len()
            invariant
                i <= self.entries@.len(),
                self@ == old(self)@,
                distinct_keys(old(self)@),
                key@ == k,
                forall|j: int| 0 <= j < i ==> #[trigger] self@[j].0 != k,
            decreases self.entries.len() - i,
        {
            if self.entries[i].0 == key {
                proof {
                    lemma_key_pos_at(self@, k, i as int);
                }
                let ghost before = self.entries@;
                self.entries.set(i, (key, hash));
                assert(self@ == old(self)@.update(i as int, (k, hash)));
                assert(self@ == insert_entry(old(self)@, k, hash));
                proof {
                    lemma_insert_entry(old(self)@, k, hash);
                }
                return;
            }
            i = i + 1;
        }
        proof {
            lemma_key_pos_at(self@, k, self@.len() as int);
        }
        self.entries.push((key, hash));
        assert(self@ == old(self)@.push((k, hash)));
    }
}

// ---------------------------------------------------------------------------
// The cache file
// ---------------------------------------------------------------------------

/// One line of the cache file: up to the first space a hash in hexadecimal,
/// after it the path.
pub open spec fn parse_line(l: Seq<char>) -> Option<(Seq<char>, u64)> {
    let p = find_char(l, ' ');
    if p < l.len() {
        match parse_unsigned(l.take(p), 16, u64::MAX as nat) {
            Some(h) => Some((l.skip(p + 1), h as u64)),
            None => None,
        }
    } else {
        None
    }
}

/// The entries `acc` after reading the lines `ls` into them, one after the
/// other; a line that does not parse is skipped.
pub open spec fn parse_lines_into(ls: Seq<Seq<char>>, acc: Seq<(Seq<char>, u64)>) -> Seq<
    (Seq<char>, u64),
>
    decreases ls.len(),
{
    if ls.len() == 0 {
        acc
    } else {
        let acc2 = match parse_line(ls[0]) {
            Some(kh) => insert_entry(acc, kh.0, kh.1),
            None => acc,
        };
        parse_lines_into(ls.drop_first(), acc2)
    }
}

/// The entries that a cache file holds.
pub open spec fn parse_cache(content: Seq<char>) -> Seq<(Seq<char>, u64)> {
    parse_lines_into(lines(content), seq![])
}

/// The line of a cache file for one path, without its line feed.
pub open spec fn entry_body(k: Seq<char>, h: u64) -> Seq<char> {
    hex16(h) + seq![' '] + k
}

/// The cache file written for `e`: one line per entry, in order.
pub open spec fn render_entries(e: Seq<(Seq<char>, u64)>) -> Seq<char>
    decreases e.len(),
{
    if e.len() == 0 {
        seq![]
    } else {
        entry_body(e[0].0, e[0].1) + seq!['\n'] + render_entries(e.drop_first())
    }
}

/// Reads the contents of a cache file.
pub fn read_cache(content: &str) -> (c: HashCache)
    ensures
        c.wf(),
        c@ == parse_cache(content@),
{
    let v = chars_of(content);
    let ls = split_lines(&v);
    let ghost all = lines(v@);
    let mut c = HashCache::new();
    let mut i: usize = 0;
    assert(all.skip(0) == all);
    while i < ls.len()
        invariant
            i <= ls@.len(),
            ls@.len() == all.len(),
            all == lines(v@),
            v@ == content@,
            forall|j: int| 0 <= j < ls@.len() ==> #[trigger] ls@[j]@ == all[j],
            c.wf(),
            parse_cache(content@) == parse_lines_into(all.skip(i as int), c@),
        decreases ls.len() - i,
    {
        let line = &ls[i];
        assert(all.skip(i as int)[0] == line@);
        assert(all.skip(i as int).drop_first() == all.skip(i + 1));
        assert(line@.subrange(0, line@.len() as int) == line@);
        let sp = find_char_in(line, 0, line.len(), ' ');
        if sp < line.len() {
            assert(line@.subrange(0, sp as int) == line@.take(sp as int));
            match parse_unsigned_range(line, 0, sp, 16, u64::MAX) {
                Some(h) => {
                    let kv = copy_range(line, sp + 1, line.len());
                    assert(kv@ == line@.skip(sp + 1));
                    let key = string_of(&kv);
                    c.insert(key, h);
                },
                None => {},
            }
        }
        i = i + 1;
    }
    assert(all.skip(ls.len() as int) == Seq::<Seq<char>>::empty());
    c
}

proof fn lemma_render_push(e: Seq<(Seq<char>, u64)>, x: (Seq<char>, u64))
    ensures
        render_entries(e.push(x)) == render_entries(e) + (entry_body(x.0, x.1) + seq!['\n']),
    decreases e.len(),
{
    if e.len() == 0 {
        assert(e.push(x).drop_first() == Seq::<(Seq<char>, u64)>::empty());
        assert(e.push(x)[0] == x);
        assert(render_entries(Seq::<(Seq<char>, u64)>::empty()) == Seq::<char>::empty());
        assert(render_entries(e) == Seq::<char>::empty());
        assert(render_entries(e.push(x)) == entry_body(x.0, x.1) + seq!['\n'] + Seq::<char>::empty());
    } else {
        lemma_render_push(e.drop_first(), x);
        assert(e.push(x).drop_first() == e.drop_first().push(x));
        assert(e.push(x)[0] == e[0]);
    }
}

/// The contents of the cache file that holds `cache`.
pub fn write_cache(cache: &HashCache) -> (s: String)
    ensures
        s@ == render_entries(cache@),
{
    let mut out: Vec<char> = Vec::new();
    let mut i: usize = 0;
    assert(cache@.take(0) == Seq::<(Seq<char>, u64)>::empty());
    while i < cache.entries.len()
        invariant
            i <= cache.entries@.len(),
            cache@.len() == cache.entries@.len(),
            out@ == render_entries(cache@.take(i as int)),
        decreases cache.entries.len() - i,
    {
        let ghost before = out@;
        let entry = &cache.entries[i];
        let hx = hex16_chars(entry.1);
        append_chars(&mut out, &hx);
        out.push(' ');
        append_str(&mut out, entry.0.as_str());
        out.push('\n');
        proof {
            let x = cache@[i as int];
            assert(x == (entry.0@, entry.1));
            lemma_render_push(cache@.take(i as int), x);
            assert(cache@.take(i + 1) == cache@.take(i as int).push(x));
            assert(out@ == before + (entry_body(x.0, x.1) + seq!['\n']));
        }
        i = i + 1;
    }
    assert(cache@.take(cache.entries.len() as int) == cache@);
    string_of(&out)
}

// ---------------------------------------------------------------------------
// Reading back what was written
// ---------------------------------------------------------------------------

/// A path that a cache file line holds unchanged: no line feed in
/// it, and no carriage return at its end.
pub open spec fn storable_key(k: Seq<char>) -> bool {
    &&& forall|i: int| 0 <= i < k.len() ==> k[i] != '\n'
    &&& !(k.len() > 0 && k.last() == '\r')
}

/// Every key of `e` is storable.
pub open spec fn storable(e: Seq<(Seq<char>, u64)>) -> bool {
    forall|i: int| 0 <= i < e.len() ==> storable_key(#[trigger] e[i].0)
}

/// The lines of a cache file for `e`.
pub open spec fn entry_bodies(e: Seq<(Seq<char>, u64)>) -> Seq<Seq<char>> {
    e.map_values(|x: (Seq<char>, u64)| entry_body(x.0, x.1))
}

proof fn lemma_entry_body_shape(k: Seq<char>, h: u64)
    requires
        storable_key(k),
    ensures
        forall|i: int| 0 <= i < entry_body(k, h).len() ==> entry_body(k, h)[i] != '\n',
        strip_cr(entry_body(k, h)) == entry_body(k, h),
{
    let b = entry_body(k, h);
    lemma_hex16_value(h);
    assert forall|i: int| 0 <= i < b.len() implies b[i] != '\n' by {
        if i < 16 {
            assert(b[i] == hex16(h)[i]);
        } else if i > 16 {
            assert(b[i] == k[i - 17]);
        }
    }
    if k.len() > 0 {
        assert(b.last() == k.last());
    } else {
        assert(b.last() == ' ');
    }
}

proof fn lemma_lines_of_render(e: Seq<(Seq<char>, u64)>)
    requires
        storable(e),
    ensures
        lines(render_entries(e)) == entry_bodies(e),
    decreases e.len(),
{
    if e.len() == 0 {
        assert(entry_bodies(e) == Seq::<Seq<char>>::empty());
    } else {
        let b = entry_body(e[0].0, e[0].1);
        assert(storable_key(e[0].0));
        lemma_entry_body_shape(e[0].0, e[0].1);
        lemma_lines_acc_newline(b, render_entries(e.drop_first()), seq![]);
        assert(Seq::<char>::empty() + b == b);
        assert forall|i: int| 0 <= i < e.drop_first().len() implies storable_key(
            #[trigger] e.drop_first()[i].0,
        ) by {
            assert(e.drop_first()[i] == e[i + 1]);
        }
        lemma_lines_of_render(e.drop_first());
        assert(entry_bodies(e) == seq![b] + entry_bodies(e.drop_first()));
    }
}

proof fn lemma_parse_entry_body(k: Seq<char>, h: u64)
    ensures
        parse_line(entry_body(k, h)) == Some((k, h)),
{
    let b = entry_body(k, h);
    lemma_hex16_value(h);
    lemma_parse_hex16(h);
    assert(b[16] == ' ');
    assert forall|j: int| 0 <= j < 16 implies b[j] != ' ' by {
        assert(b[j] == hex16(h)[j]);
    }
    lemma_find_char_at(b, ' ', 16);
    assert(b.take(16) == hex16(h));
    assert(b.skip(17) == k);
}

proof fn lemma_parse_bodies(e: Seq<(Seq<char>, u64)>, acc: Seq<(Seq<char>, u64)>)
    requires
        distinct_keys(acc + e),
    ensures
        parse_lines_into(entry_bodies(e), acc) == acc + e,
    decreases e.len(),
{
    let all = acc + e;
    if e.len() == 0 {
        assert(entry_bodies(e) == Seq::<Seq<char>>::empty());
        assert(acc + e == acc);
    } else {
        let x = e[0];
        lemma_parse_entry_body(x.0, x.1);
        assert(all[acc.len() as int] == x);
        assert forall|j: int| 0 <= j < acc.len() implies #[trigger] acc[j].0 != x.0 by {
            assert(all[j] == acc[j]);
        }
        lemma_key_pos_at(acc, x.0, acc.len() as int);
        assert(insert_entry(acc, x.0, x.1) == acc.push(x));
        assert(entry_bodies(e)[0] == entry_body(x.0, x.1));
        assert(entry_bodies(e).drop_first() == entry_bodies(e.drop_first()));
        assert(acc.push(x) + e.drop_first() == acc + e);
        lemma_parse_bodies(e.drop_first(), acc.push(x));
    }
}

/// Reading a cache file gives back the entries it was written from: each
/// path with its hash, in the same order.
pub proof fn lemma_cache_round_trip(e: Seq<(Seq<char>, u64)>)
    requires
        distinct_keys(e),
        storable(e),
    ensures
        parse_cache(render_entries(e)) == e,
{
    lemma_lines_of_render(e);
    assert(Seq::<(Seq<char>, u64)>::empty() + e == e);
    lemma_parse_bodies(e, seq![]);
}

proof fn lemma_parse_lines_distinct(ls: Seq<Seq<char>>, acc: Seq<(Seq<char>, u64)>)
    requires
        distinct_keys(acc),
    ensures
        distinct_keys(parse_lines_into(ls, acc)),
    decreases ls.len(),
{
    if ls.len() > 0 {
        match parse_line(ls[0]) {
            Some(kh) => {
                lemma_insert_entry(acc, kh.0, kh.1);
                lemma_parse_lines_distinct(ls.drop_first(), insert_entry(acc, kh.0, kh.1));
            },
            None => {
                lemma_parse_lines_distinct(ls.drop_first(), acc);
            },
        }
    }
}

/// No path occurs twice among the entries read from a cache file.
pub proof fn lemma_parse_cache_distinct(content: Seq<char>)
    ensures
        distinct_keys(parse_cache(content)),
{
    lemma_parse_lines_distinct(lines(content), seq![]);
}

proof fn lemma_insert_storable(e: Seq<(Seq<char>, u64)>, k: Seq<char>, h: u64)
    requires
        storable(e),
        storable_key(k),
    ensures
        storable(insert_entry(e, k, h)),
{
    let e2 = insert_entry(e, k, h);
    lemma_key_pos(e, k);
    let p = key_pos(e, k);
    assert forall|i: int| 0 <= i < e2.len() implies storable_key(#[trigger] e2[i].0) by {
        if (p < e.len() && i == p) || i == e.len() {
            assert(e2[i].0 == k);
        } else {
            assert(e2[i] == e[i]);
            assert(storable_key(e[i].0));
        }
    }
}

/// After a hash is stored for a path, reading the cache file gives that
/// hash for the path and leaves every other path as it was.
pub proof fn lemma_update_cache_read_back(content: Seq<char>, key: Seq<char>, h: u64)
    requires
        storable_key(key),
        storable(parse_cache(content)),
    ensures
        parse_cache(render_entries(insert_entry(parse_cache(content), key, h))) == insert_entry(
            parse_cache(content),
            key,
            h,
        ),
        lookup(parse_cache(render_entries(insert_entry(parse_cache(content), key, h))), key)
            == Some(h),
        forall|k2: Seq<char>|
            k2 != key ==> #[trigger] lookup(
                parse_cache(render_entries(insert_entry(parse_cache(content), key, h))),
                k2,
            ) == lookup(parse_cache(content), k2),
{
    let e = parse_cache(content);
    lemma_parse_cache_distinct(content);
    lemma_insert_entry(e, key, h);
    lemma_insert_storable(e, key, h);
    lemma_cache_round_trip(insert_entry(e, key, h));
}

/// Once the cache file records the current hash of a source for the binary
/// built from it, the binary counts as up to date for that source while it
/// exists: compiling twice in a row runs the compiler once.
pub proof fn lemma_up_to_date_after_update(content: Seq<char>, binary: Seq<char>, h: u64)
    requires
        storable_key(binary),
        storable(parse_cache(content)),
    ensures
        up_to_date(true, Some(h), render_entries(insert_entry(parse_cache(content), binary, h)), binary),
{
    lemma_update_cache_read_back(content, binary, h);
}

/// When another source, with other contents, was built into the same binary
/// afterwards, the first source is not up to date: it is compiled again
/// rather than run as the other program.
pub proof fn lemma_other_source_rebuilds(
    content: Seq<char>,
    binary: Seq<char>,
    ha: u64,
    hb: u64,
    exe_exists: bool,
)
    requires
        ha != hb,
        storable_key(binary),
        storable(parse_cache(content)),
    ensures
        !up_to_date(
            exe_exists,
            Some(ha),
            render_entries(
                insert_entry(
                    parse_cache(render_entries(insert_entry(parse_cache(content), binary, ha))),
                    binary,
                    hb,
                ),
            ),
            binary,
        ),
{
    let c1 = render_entries(insert_entry(parse_cache(content), binary, ha));
    lemma_update_cache_read_back(content, binary, ha);
    lemma_parse_cache_distinct(content);
    lemma_insert_entry(parse_cache(content), binary, ha);
    lemma_insert_storable(parse_cache(content), binary, ha);
    lemma_update_cache_read_back(c1, binary, hb);
}

// ---------------------------------------------------------------------------
// Operations of the compile step
// ---------------------------------------------------------------------------

/// The cache file after recording, in the cache file `cache_content` (an
/// unreadable cache file reads as empty), that `binary` was built from a
/// source whose contents hash to `hash`.
pub fn update_cache(cache_content: &str, binary: &str, hash: u64) -> (r: String)
    ensures
        r@ == render_entries(insert_entry(parse_cache(cache_content@), binary@, hash)),
{
    let mut c = read_cache(cache_content);
    c.insert(binary.to_owned(), hash);
    write_cache(&c)
}

/// Whether a binary can be run for a source without compiling: the binary
/// exists, the source could be hashed, and the cache holds that hash for
/// the binary, so that it was last built from these very contents.
pub open spec fn up_to_date(
    exe_exists: bool,
    current_hash: Option<u64>,
    cache_content: Seq<char>,
    binary: Seq<char>,
) -> bool {
    &&& exe_exists
    &&& current_hash is Some
    &&& lookup(parse_cache(cache_content), binary) == current_hash
}

/// Whether `binary` was built from the current contents of its source (see
/// [`up_to_date`]).
pub fn is_up_to_date(
    exe_exists: bool,
    current_hash: Option<u64>,
    cache_content: &str,
    binary: &str,
) -> (b: bool)
    ensures
        b == up_to_date(exe_exists, current_hash, cache_content@, binary@),
{
    if !exe_exists {
        return false;
    }
    match current_hash {
        None => false,
        Some(h) => {
            let c = read_cache(cache_content);
            match c.get(binary) {
                Some(stored) => stored == h,
                None => false,
            }
        },
    }
}

/// What to do about a source before running its binary.
#[derive(PartialEq, Eq, Structural, Debug, Clone, Copy)]
pub enum CompileStep {
    /// Compilation was turned off and there is no binary: fail.
    MissingBinary,
    /// Compilation was turned off: run the binary that is there.
    ReuseBinary,
    /// The binary was built from the current source: run it.
    UpToDate,
    /// Compile the source; on success record its hash for the binary.
    Compile,
}

/// The decision that precedes running the binary built from a source: with
/// compilation turned off, the binary is run if it exists; otherwise it is
/// run only when it was last built from the source's current contents, and
/// compiled anew in every other case.
pub fn compile_if_needed(
    no_compile: bool,
    exe_exists: bool,
    current_hash: Option<u64>,
    cache_content: &str,
    binary: &str,
) -> (s: CompileStep)
    ensures
        no_compile && !exe_exists ==> s == CompileStep::MissingBinary,
        no_compile && exe_exists ==> s == CompileStep::ReuseBinary,
        !no_compile && up_to_date(exe_exists, current_hash, cache_content@, binary@)
            ==> s == CompileStep::UpToDate,
        !no_compile && !up_to_date(exe_exists, current_hash, cache_content@, binary@)
            ==> s == CompileStep::Compile,
{
    if no_compile {
        if !exe_exists {
            CompileStep::MissingBinary
        } else {
            CompileStep::ReuseBinary
        }
    } else if is_up_to_date(exe_exists, current_hash, cache_content, binary) {
        CompileStep::UpToDate
    } else {
        CompileStep::Compile
    }
}

} // verus!
