//! Token sets: whitespace-separated `key:value` text decoded into a map.
use vstd::prelude::*;
use vstd::string::*;

verus! {

/// The characters that `char::is_whitespace` accepts (Unicode White_Space).
pub open spec fn is_space_char(c: char) -> bool {
    let u = c as u32;
    ||| 9 <= u <= 13
    ||| u == 32
    ||| u == 0x85
    ||| u == 0xA0
    ||| u == 0x1680
    ||| 0x2000 <= u <= 0x200A
    ||| u == 0x2028
    ||| u == 0x2029
    ||| u == 0x202F
    ||| u == 0x205F
    ||| u == 0x3000
}

/// Executable form of `is_space_char`.
pub fn is_whitespace(c: char) -> (r: bool)
    ensures
        r == is_space_char(c),
{
    let u = c as u32;
    (9 <= u && u <= 13) || u == 32 || u == 0x85 || u == 0xA0 || u == 0x1680 || (0x2000 <= u && u
        <= 0x200A) || u == 0x2028 || u == 0x2029 || u == 0x202F || u == 0x205F || u == 0x3000
}

/// `s` without its leading whitespace.
pub open spec fn trim_start(s: Seq<char>) -> Seq<char>
    decreases s.len(),
{
    if s.len() > 0 && is_space_char(s[0]) {
        trim_start(s.drop_first())
    } else {
        s
    }
}

/// `s` without its trailing whitespace.
pub open spec fn trim_end(s: Seq<char>) -> Seq<char>
    decreases s.len(),
{
    if s.len() > 0 && is_space_char(s.last()) {
        trim_end(s.drop_last())
    } else {
        s
    }
}

/// `s` without its leading and trailing whitespace.
pub open spec fn trim(s: Seq<char>) -> Seq<char> {
    trim_end(trim_start(s))
}

/// Position of the first `x` in `s`, or `s.len()` when there is none.
pub open spec fn index_of<T>(s: Seq<T>, x: T) -> nat
    decreases s.len(),
{
    if s.len() == 0 {
        0
    } else if s[0] == x {
        0
    } else {
        1 + index_of(s.drop_first(), x)
    }
}

/// The non-empty runs of `s` between single spaces, in order.
pub open spec fn segments(s: Seq<char>) -> Seq<Seq<char>>
    decreases s.len(),
{
    if s.len() == 0 {
        seq![]
    } else {
        let k = index_of(s, ' ');
        let rest = if k < s.len() {
            segments(s.skip((k + 1) as int))
        } else {
            seq![]
        };
        if k == 0 {
            rest
        } else {
            seq![s.take(k as int)] + rest
        }
    }
}

/// A token split at its first colon into key and value; `None` without a colon.
pub open spec fn split_token(w: Seq<char>) -> Option<(Seq<char>, Seq<char>)> {
    let k = index_of(w, ':');
    if k < w.len() {
        Some((w.take(k as int), w.skip((k + 1) as int)))
    } else {
        None
    }
}

/// The tokens inserted in order into an empty map, a later key replacing an earlier one.
pub open spec fn insert_tokens(ws: Seq<Seq<char>>) -> Option<Map<Seq<char>, Seq<char>>>
    decreases ws.len(),
{
    if ws.len() == 0 {
        Some(Map::empty())
    } else {
        match insert_tokens(ws.drop_last()) {
            Some(m) => match split_token(ws.last()) {
                Some(kv) => Some(m.insert(kv.0, kv.1)),
                None => None,
            },
            None => None,
        }
    }
}

/// What a line decodes to: `None` where a token has no colon.
pub open spec fn decode_line(s: Seq<char>) -> Option<Map<Seq<char>, Seq<char>>> {
    insert_tokens(segments(trim(s)))
}

/// The map holding the pairs inserted in order.
pub open spec fn map_of(ps: Seq<(Seq<char>, Seq<char>)>) -> Map<Seq<char>, Seq<char>>
    decreases ps.len(),
{
    if ps.len() == 0 {
        Map::empty()
    } else {
        map_of(ps.drop_last()).insert(ps.last().0, ps.last().1)
    }
}

/// No key occurs twice.
pub open spec fn keys_unique(ps: Seq<(Seq<char>, Seq<char>)>) -> bool {
    forall|i: int, j: int|
        0 <= i < ps.len() && 0 <= j < ps.len() && i != j ==> ps[i].0 != ps[j].0
}

/// The text of one pair: `key:value`.
pub open spec fn token_text(p: (Seq<char>, Seq<char>)) -> Seq<char> {
    p.0 + seq![':'] + p.1
}

/// The pairs written as tokens joined by single spaces.
pub open spec fn encode_pairs(ps: Seq<(Seq<char>, Seq<char>)>) -> Seq<char>
    decreases ps.len(),
{
    if ps.len() == 0 {
        seq![]
    } else if ps.len() == 1 {
        token_text(ps[0])
    } else {
        token_text(ps[0]) + seq![' '] + encode_pairs(ps.drop_first())
    }
}

/// A key free of whitespace and colons.
pub open spec fn plain_key(k: Seq<char>) -> bool {
    forall|j: int| 0 <= j < k.len() ==> !is_space_char(#[trigger] k[j]) && k[j] != ':'
}

/// A value free of whitespace.
pub open spec fn plain_value(v: Seq<char>) -> bool {
    forall|j: int| 0 <= j < v.len() ==> !is_space_char(#[trigger] v[j])
}

/// Every pair has a plain key and a plain value.
pub open spec fn plain_pairs(ps: Seq<(Seq<char>, Seq<char>)>) -> bool {
    forall|i: int| 0 <= i < ps.len() ==> plain_key(#[trigger] ps[i].0) && plain_value(ps[i].1)
}

/// The error of a token without a colon.
#[derive(Debug, Clone, Copy, PartialEq, Eq)]
pub enum TokenError {
    MissingColon,
}

/// A string-to-string map with unique keys, kept in insertion order.
pub struct TokenSet {
    entries: Vec<(String, String)>,
}

impl TokenSet {
    /// The entries as pairs of character sequences, in stored order.
    pub closed spec fn pairs(&self) -> Seq<(Seq<char>, Seq<char>)> {
        self.entries@.map_values(|e: (String, String)| (e.0@, e.1@))
    }

    /// Keys are unique.
    pub closed spec fn wf(&self) -> bool {
        keys_unique(self.pairs())
    }

    /// An empty token set.
    pub fn new() -> (r: TokenSet)
        ensures
            r.wf(),
            r@ == Map::<Seq<char>, Seq<char>>::empty(),
            r.pairs() == Seq::<(Seq<char>, Seq<char>)>::empty(),
    {
        let r = TokenSet { entries: Vec::new() };
        assert(r.pairs() =~= Seq::<(Seq<char>, Seq<char>)>::empty());
        r
    }

    /// Sets `key` to `value`, replacing a value already held for it.
    pub fn insert(&mut self, key: String, value: String)
        requires
            old(self).wf(),
        ensures
            final(self).wf(),
            final(self)@ == old(self)@.insert(key@, value@),
    {
        let ghost ps = old(self).pairs();
        let mut i: usize = 0;
        while i < self.entries.len()
            invariant
                i <= self.entries.len(),
                self.pairs() == ps,
                old(self).pairs() == ps,
                keys_unique(ps),
                forall|j: int| 0 <= j < i ==> ps[j].0 != key@,
            decreases self.entries.len() - i,
        {
            if self.entries[i].0 == key {
                self.entries.set(i, (key, value));
                proof {
                    assert(self.pairs() =~= ps.update(i as int, (key@, value@)));
                    lemma_map_of_update(ps, i as int, (key@, value@));
                }
                return;
            }
            i += 1;
        }
        self.entries.push((key, value));
        proof {
            assert(self.pairs() =~= ps.push((key@, value@)));
            assert(self.pairs().drop_last() =~= ps);
        }
    }

    /// The value held for `key`.
    pub fn get(&self, key: &str) -> (r: Option<&String>)
        requires
            self.wf(),
        ensures
            match r {
                Some(v) => self@.contains_key(key@) && self@[key@] == v@,
                None => !self@.contains_key(key@),
            },
    {
        let k = key.to_owned();
        let ghost ps = self.pairs();
        let mut i: usize = 0;
        while i < self.entries.len()
            invariant
                i <= self.entries.len(),
                ps == self.pairs(),
                keys_unique(ps),
                k@ == key@,
                forall|j: int| 0 <= j < i ==> ps[j].0 != key@,
            decreases self.entries.len() - i,
        {
            if self.entries[i].0 == k {
                proof {
                    lemma_map_of_index(ps, i as int);
                }
                return Some(&self.entries[i].1);
            }
            i += 1;
        }
        proof {
            lemma_map_of_keys(ps, key@);
        }
        None
    }

    /// The entries, in stored order.
    pub fn into_pairs(self) -> (r: Vec<(String, String)>)
        ensures
            r@.map_values(|e: (String, String)| (e.0@, e.1@)) == self.pairs(),
    {
        self.entries
    }

    /// The entries written as `key:value` tokens joined by single spaces.
    pub fn encode(&self) -> (r: String)
        ensures
            r@ == encode_pairs(self.pairs()),
    {
        let ghost ps = self.pairs();
        let mut line = String::new();
        let mut i: usize = 0;
        while i < self.entries.len()
            invariant
                i <= self.entries.len(),
                ps == self.pairs(),
                line@ == encode_pairs(ps.take(i as int)),
            decreases self.entries.len() - i,
        {
            if i > 0 {
                line.append(" ");
            }
            line.append(self.entries[i].0.as_str());
            line.append(":");
            line.append(self.entries[i].1.as_str());
            proof {
                reveal_strlit(" ");
                reveal_strlit(":");
                assert(ps.take(i + 1) =~= ps.take(i as int).push(ps[i as int]));
                if i == 0 {
                    assert(line@ =~= token_text(ps[0]));
                } else {
                    lemma_encode_push(ps.take(i as int), ps[i as int]);
                    assert(line@ =~= encode_pairs(ps.take(i as int)) + seq![' '] + token_text(
                        ps[i as int],
                    ));
                }
            }
            i += 1;
        }
        assert(ps.take(i as int) =~= ps);
        line
    }
}

impl View for TokenSet {
    type V = Map<Seq<char>, Seq<char>>;

    closed spec fn view(&self) -> Map<Seq<char>, Seq<char>> {
        map_of(self.pairs())
    }
}

proof fn lemma_map_of_update(ps: Seq<(Seq<char>, Seq<char>)>, j: int, p: (Seq<char>, Seq<char>))
    requires
        keys_unique(ps),
        0 <= j < ps.len(),
        ps[j].0 == p.0,
    ensures
        map_of(ps.update(j, p)) == map_of(ps).insert(p.0, p.1),
        keys_unique(ps.update(j, p)),
    decreases ps.len(),
{
    let qs = ps.update(j, p);
    if j == ps.len() - 1 {
        assert(qs.drop_last() =~= ps.drop_last());
        assert(map_of(qs) =~= map_of(ps).insert(p.0, p.1));
    } else {
        assert(qs.drop_last() =~= ps.drop_last().update(j, p));
        lemma_map_of_update(ps.drop_last(), j, p);
        assert(ps.last().0 != p.0);
        assert(map_of(qs) =~= map_of(ps).insert(p.0, p.1));
    }
    assert forall|a: int, b: int|
        0 <= a < qs.len() && 0 <= b < qs.len() && a != b implies qs[a].0 != qs[b].0 by {
        assert(ps[a].0 != ps[b].0);
    }
}

proof fn lemma_map_of_index(ps: Seq<(Seq<char>, Seq<char>)>, i: int)
    requires
        keys_unique(ps),
        0 <= i < ps.len(),
    ensures
        map_of(ps).contains_key(ps[i].0),
        map_of(ps)[ps[i].0] == ps[i].1,
    decreases ps.len(),
{
    if i < ps.len() - 1 {
        lemma_map_of_index(ps.drop_last(), i);
        assert(ps.last().0 != ps[i].0);
    }
}

proof fn lemma_map_of_keys(ps: Seq<(Seq<char>, Seq<char>)>, k: Seq<char>)
    requires
        forall|j: int| 0 <= j < ps.len() ==> ps[j].0 != k,
    ensures
        !map_of(ps).contains_key(k),
    decreases ps.len(),
{
    if ps.len() > 0 {
        lemma_map_of_keys(ps.drop_last(), k);
    }
}

proof fn lemma_encode_push(ps: Seq<(Seq<char>, Seq<char>)>, p: (Seq<char>, Seq<char>))
    requires
        ps.len() > 0,
    ensures
        encode_pairs(ps.push(p)) == encode_pairs(ps) + seq![' '] + token_text(p),
    decreases ps.len(),
{
    let qs = ps.push(p);
    assert(qs.drop_first() =~= ps.drop_first().push(p));
    if ps.len() == 1 {
        assert(ps.drop_first().push(p) =~= seq![p]);
        assert(encode_pairs(seq![p]) == token_text(p));
        assert(qs[0] == ps[0]);
        assert(encode_pairs(qs) == token_text(ps[0]) + seq![' '] + token_text(p));
        assert(encode_pairs(qs) =~= encode_pairs(ps) + seq![' '] + token_text(p));
    } else {
        lemma_encode_push(ps.drop_first(), p);
        assert(encode_pairs(qs) =~= encode_pairs(ps) + seq![' '] + token_text(p));
    }
}

/// Decodes a line of `key:value` tokens: the line is trimmed, split at single
/// spaces with empty pieces dropped, and each token split at its first colon.
/// A repeated key keeps its last value.
pub fn parse_token_set(line: &str) -> (r: Result<TokenSet, TokenError>)
    ensures
        match r {
            Ok(t) => t.wf() && decode_line(line@) == Some(t@),
            Err(_) => decode_line(line@) is None,
        },
{
    let n = line.unicode_len();
    let ghost s = line@;
    let mut lo: usize = 0;
    assert(s.subrange(0, n as int) =~= s);
    while lo < n && is_whitespace(line.get_char(lo))
        invariant
            lo <= n,
            n == s.len(),
            s == line@,
            trim_start(s) == trim_start(s.subrange(lo as int, n as int)),
        decreases n - lo,
    {
        assert(s.subrange(lo as int, n as int).drop_first() =~= s.subrange(lo + 1, n as int));
        lo += 1;
    }
    let mut hi: usize = n;
    while hi > lo && is_whitespace(line.get_char(hi - 1))
        invariant
            lo <= hi <= n,
            n == s.len(),
            s == line@,
            trim_start(s) == s.subrange(lo as int, n as int),
            trim_end(s.subrange(lo as int, n as int)) == trim_end(s.subrange(lo as int, hi as int)),
        decreases hi - lo,
    {
        assert(s.subrange(lo as int, hi as int).drop_last() =~= s.subrange(lo as int, hi - 1));
        hi -= 1;
    }
    let ghost t = s.subrange(lo as int, hi as int);
    assert(trim(s) == t);
    let mut set = TokenSet::new();
    let ghost mut done: Seq<Seq<char>> = seq![];
    let mut pos: usize = lo;
    while pos < hi
        invariant
            lo <= pos <= hi <= n,
            n == s.len(),
            s == line@,
            t == s.subrange(lo as int, hi as int),
            trim(s) == t,
            set.wf(),
            insert_tokens(done) == Some(set@),
            segments(t) == done + segments(s.subrange(pos as int, hi as int)),
        decreases hi - pos,
    {
        let mut e: usize = pos;
        while e < hi && line.get_char(e) != ' '
            invariant
                pos <= e <= hi <= n,
                n == s.len(),
                s == line@,
                forall|j: int| pos <= j < e ==> s[j] != ' ',
            decreases hi - e,
        {
            e += 1;
        }
        let ghost u = s.subrange(pos as int, hi as int);
        let ghost w = s.subrange(pos as int, e as int);
        proof {
            lemma_index_of(u, ' ', e - pos);
            assert(u.take(e - pos) =~= w);
            if e < hi {
                assert(u.skip(e - pos + 1) =~= s.subrange(e + 1, hi as int));
            }
        }
        if e > pos {
            let mut c: usize = pos;
            while c < e && line.get_char(c) != ':'
                invariant
                    pos <= c <= e <= n,
                    n == s.len(),
                    s == line@,
                    forall|j: int| pos <= j < c ==> s[j] != ':',
                decreases e - c,
            {
                c += 1;
            }
            proof {
                lemma_index_of(w, ':', c - pos);
            }
            if c == e {
                proof {
                    let rest = if e < hi {
                        segments(s.subrange(e + 1, hi as int))
                    } else {
                        seq![]
                    };
                    assert(insert_tokens(done.push(w)) is None) by {
                        assert(done.push(w).drop_last() =~= done);
                    }
                    assert(segments(t) =~= done.push(w) + rest);
                    lemma_insert_tokens_none(done.push(w), rest);
                }
                return Err(TokenError::MissingColon);
            }
            let key = line.substring_char(pos, c).to_owned();
            let value = line.substring_char(c + 1, e).to_owned();
            proof {
                assert(w.take(c - pos) =~= key@);
                assert(w.skip(c - pos + 1) =~= value@);
                assert(done.push(w).drop_last() =~= done);
            }
            set.insert(key, value);
            proof {
                done = done.push(w);
            }
        }
        if e < hi {
            pos = e + 1;
        } else {
            pos = hi;
        }
        proof {
            let rest = segments(s.subrange(pos as int, hi as int));
            assert(done + rest =~= segments(t));
        }
    }
    assert(done + segments(s.subrange(pos as int, hi as int)) =~= done);
    Ok(set)
}

pub(crate) proof fn lemma_index_of<T>(s: Seq<T>, x: T, i: int)
    requires
        0 <= i <= s.len(),
        forall|j: int| 0 <= j < i ==> s[j] != x,
        i == s.len() || s[i] == x,
    ensures
        index_of(s, x) == i,
    decreases i,
{
    if i > 0 {
        lemma_index_of(s.drop_first(), x, i - 1);
    }
}

proof fn lemma_insert_tokens_none(a: Seq<Seq<char>>, b: Seq<Seq<char>>)
    requires
        insert_tokens(a) is None,
    ensures
        insert_tokens(a + b) is None,
    decreases b.len(),
{
    if b.len() > 0 {
        assert((a + b).drop_last() =~= a + b.drop_last());
        lemma_insert_tokens_none(a, b.drop_last());
    }
}

/// Round trip: decoding the encoded text of a token set whose keys hold no
/// whitespace or colon, and whose values hold no whitespace, gives back the
/// same map.
pub proof fn lemma_decode_encode(t: &TokenSet)
    requires
        plain_pairs(t.pairs()),
    ensures
        decode_line(encode_pairs(t.pairs())) == Some(t@),
{
    lemma_decode_encode_pairs(t.pairs());
}

/// Round trip on pairs: the encoded text of plain pairs decodes to the map
/// that inserting them in order makes.
pub proof fn lemma_decode_encode_pairs(ps: Seq<(Seq<char>, Seq<char>)>)
    requires
        plain_pairs(ps),
    ensures
        decode_line(encode_pairs(ps)) == Some(map_of(ps)),
{
    let e = encode_pairs(ps);
    if ps.len() > 0 {
        lemma_encode_ends(ps);
        lemma_token_chars(ps[0]);
        lemma_token_chars(ps.last());
    }
    assert(trim_start(e) == e);
    assert(trim_end(e) == e);
    lemma_segments_encode(ps);
    lemma_insert_token_texts(ps);
}

proof fn lemma_token_chars(p: (Seq<char>, Seq<char>))
    requires
        plain_key(p.0),
        plain_value(p.1),
    ensures
        token_text(p).len() == p.0.len() + 1 + p.1.len(),
        token_text(p)[p.0.len() as int] == ':',
        forall|j: int| 0 <= j < token_text(p).len() ==> !is_space_char(#[trigger] token_text(p)[j]),
        forall|j: int| 0 <= j < p.0.len() ==> #[trigger] token_text(p)[j] != ':',
        split_token(token_text(p)) == Some(p),
{
    let w = token_text(p);
    assert forall|j: int| 0 <= j < w.len() implies !is_space_char(#[trigger] w[j]) by {
        if j < p.0.len() {
            assert(w[j] == p.0[j]);
        } else if j > p.0.len() {
            assert(w[j] == p.1[j - p.0.len() - 1]);
        }
    }
    assert forall|j: int| 0 <= j < p.0.len() implies #[trigger] w[j] != ':' by {
        assert(w[j] == p.0[j]);
    }
    lemma_index_of(w, ':', p.0.len() as int);
    assert(w.take(p.0.len() as int) =~= p.0);
    assert(w.skip((p.0.len() + 1) as int) =~= p.1);
}

proof fn lemma_plain_tail(ps: Seq<(Seq<char>, Seq<char>)>)
    requires
        plain_pairs(ps),
        ps.len() > 0,
    ensures
        plain_pairs(ps.drop_first()),
        plain_pairs(ps.drop_last()),
        plain_key(ps[0].0),
        plain_value(ps[0].1),
{
    assert(plain_key(ps[0].0) && plain_value(ps[0].1));
    assert forall|i: int| 0 <= i < ps.drop_first().len() implies plain_key(
        #[trigger] ps.drop_first()[i].0,
    ) && plain_value(ps.drop_first()[i].1) by {
        assert(ps.drop_first()[i] == ps[i + 1]);
        assert(plain_key(ps[i + 1].0) && plain_value(ps[i + 1].1));
    }
    assert forall|i: int| 0 <= i < ps.drop_last().len() implies plain_key(
        #[trigger] ps.drop_last()[i].0,
    ) && plain_value(ps.drop_last()[i].1) by {
        assert(ps.drop_last()[i] == ps[i]);
        assert(plain_key(ps[i].0) && plain_value(ps[i].1));
    }
}

proof fn lemma_encode_ends(ps: Seq<(Seq<char>, Seq<char>)>)
    requires
        ps.len() > 0,
    ensures
        encode_pairs(ps).len() > 0,
        encode_pairs(ps)[0] == token_text(ps[0])[0],
        encode_pairs(ps).last() == token_text(ps.last()).last(),
    decreases ps.len(),
{
    if ps.len() > 1 {
        lemma_encode_ends(ps.drop_first());
    }
}

proof fn lemma_segments_encode(ps: Seq<(Seq<char>, Seq<char>)>)
    requires
        plain_pairs(ps),
    ensures
        segments(encode_pairs(ps)) == ps.map_values(|p: (Seq<char>, Seq<char>)| token_text(p)),
    decreases ps.len(),
{
    let f = |p: (Seq<char>, Seq<char>)| token_text(p);
    if ps.len() == 0 {
        assert(ps.map_values(f) =~= seq![]);
    } else {
        lemma_plain_tail(ps);
        let w = token_text(ps[0]);
        lemma_token_chars(ps[0]);
        let e = encode_pairs(ps);
        if ps.len() == 1 {
            lemma_index_of(e, ' ', e.len() as int);
            assert(e.take(e.len() as int) =~= w);
            assert(ps.map_values(f) =~= seq![w]);
        } else {
            let rest = encode_pairs(ps.drop_first());
            assert forall|j: int| 0 <= j < w.len() implies e[j] != ' ' by {
                assert(e[j] == w[j]);
            }
            lemma_index_of(e, ' ', w.len() as int);
            assert(e.take(w.len() as int) =~= w);
            assert(e.skip((w.len() + 1) as int) =~= rest);
            lemma_segments_encode(ps.drop_first());
            assert(ps.map_values(f) =~= seq![w] + ps.drop_first().map_values(f));
        }
    }
}

proof fn lemma_insert_token_texts(ps: Seq<(Seq<char>, Seq<char>)>)
    requires
        plain_pairs(ps),
    ensures
        insert_tokens(ps.map_values(|p: (Seq<char>, Seq<char>)| token_text(p))) == Some(map_of(ps)),
    decreases ps.len(),
{
    let f = |p: (Seq<char>, Seq<char>)| token_text(p);
    if ps.len() > 0 {
        lemma_plain_tail(ps);
        lemma_insert_token_texts(ps.drop_last());
        assert(ps.map_values(f).drop_last() =~= ps.drop_last().map_values(f));
        assert(plain_key(ps.last().0) && plain_value(ps.last().1));
        lemma_token_chars(ps.last());
    }
}

} // verus!
