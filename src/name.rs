//! Domain names: a dotted text with the offsets at which its labels start,
//! and their wire form with pointer compression.
use vstd::prelude::*;
use vstd::slice::slice_subrange;
use vstd::string::*;
use vstd::utf8::*;

use crate::error::DnsError;
use crate::wire::put_bytes;

verus! {

/// The starts of the labels that follow a dot among the first `n`
/// characters of `t` (a dot that ends the text starts no label).
pub open spec fn dot_starts(t: Seq<char>, n: int) -> Seq<usize>
    decreases n,
{
    if n <= 0 {
        seq![]
    } else if t[n - 1] == '.' && n - 1 != t.len() - 1 {
        dot_starts(t, n - 1).push(n as usize)
    } else {
        dot_starts(t, n - 1)
    }
}

/// The character offset at which each label of `t` starts, leftmost first.
pub open spec fn label_starts(t: Seq<char>) -> Seq<usize> {
    seq![0usize] + dot_starts(t, t.len() as int)
}

/// The suffixes of `t` that start at a label, shortest first:
/// `www.google.com` gives `com`, `google.com`, `www.google.com`.
pub open spec fn subdomains(t: Seq<char>) -> Seq<Seq<char>> {
    let st = label_starts(t);
    Seq::new(st.len(), |k: int| t.subrange(st[st.len() - 1 - k] as int, t.len() as int))
}

/// The first index from `i` on at which `a` and `b` differ or one of them ends.
pub open spec fn agree_from(a: Seq<Seq<char>>, b: Seq<Seq<char>>, i: int) -> int
    decreases a.len() - i,
{
    if i < 0 || i >= a.len() || i >= b.len() || a[i] != b[i] {
        i
    } else {
        agree_from(a, b, i + 1)
    }
}

/// How many of the shortest suffixes of two names agree.
pub open spec fn matching_level_spec(x: Seq<char>, y: Seq<char>) -> int {
    agree_from(subdomains(x), subdomains(y), 0)
}

proof fn lemma_dot_starts_bounded(t: Seq<char>, n: int)
    requires
        0 <= n <= t.len() <= usize::MAX,
    ensures
        forall|k: int| 0 <= k < dot_starts(t, n).len() ==> 1 <= #[trigger] dot_starts(t, n)[k] <= n,
    decreases n,
{
    if n > 0 {
        lemma_dot_starts_bounded(t, n - 1);
        let prev = dot_starts(t, n - 1);
        if t[n - 1] == '.' && n - 1 != t.len() - 1 {
            assert(dot_starts(t, n) == prev.push(n as usize));
            assert forall|k: int| 0 <= k < dot_starts(t, n).len() implies 1 <= #[trigger] dot_starts(t, n)[k] <= n by {
                if k < prev.len() {
                    assert(dot_starts(t, n)[k] == prev[k]);
                }
            }
        }
    }
}

/// The pieces of `t` between dots, in order (`a..b` gives `a`, empty, `b`).
pub open spec fn split_dots(t: Seq<char>) -> Seq<Seq<char>>
    decreases t.len(),
{
    if t.len() == 0 {
        seq![seq![]]
    } else {
        let init = split_dots(t.drop_last());
        if t.last() == '.' {
            init.push(seq![])
        } else {
            init.update(init.len() - 1, init.last().push(t.last()))
        }
    }
}

/// The labels of a name's text: the root (empty text) has none, and a dot
/// that ends the text adds no empty label.
pub open spec fn name_labels(t: Seq<char>) -> Seq<Seq<char>> {
    if t.len() == 0 {
        seq![]
    } else if split_dots(t).last().len() == 0 {
        split_dots(t).drop_last()
    } else {
        split_dots(t)
    }
}

/// The UTF-8 octets of each label.
pub open spec fn label_octets(ls: Seq<Seq<char>>) -> Seq<Seq<u8>> {
    ls.map_values(|l: Seq<char>| encode_utf8(l))
}

/// Each label written as its length octet followed by its octets.
pub open spec fn labels_wire(ls: Seq<Seq<u8>>) -> Seq<u8>
    decreases ls.len(),
{
    if ls.len() == 0 {
        seq![]
    } else {
        labels_wire(ls.drop_last()) + seq![ls.last().len() as u8] + ls.last()
    }
}

/// The uncompressed wire form of a label sequence: the labels, then a zero octet.
pub open spec fn name_wire(ls: Seq<Seq<u8>>) -> Seq<u8> {
    labels_wire(ls).push(0)
}

/// Labels that the wire form can carry: each of 1 to 63 octets, and at most
/// 255 octets in all with the final zero.
pub open spec fn labels_fit(ls: Seq<Seq<u8>>) -> bool {
    &&& forall|i: int| 0 <= i < ls.len() ==> 1 <= #[trigger] ls[i].len() <= 63
    &&& labels_wire(ls).len() <= 254
}

/// The octets of a name's text as its labels are read back: joined by dots.
pub open spec fn join_octets(ls: Seq<Seq<u8>>) -> Seq<u8>
    decreases ls.len(),
{
    if ls.len() == 0 {
        seq![]
    } else if ls.len() == 1 {
        ls[0]
    } else {
        join_octets(ls.drop_last()) + seq![46u8] + ls.last()
    }
}

/// The labels of a wire name at `pos` of message `s`, and the position after
/// it, following compression pointers. `acc` counts the octets read so far.
/// A pointer must point before itself; labels take at most 254 octets.
pub open spec fn wire_labels(s: Seq<u8>, pos: int, acc: int) -> Option<(Seq<Seq<u8>>, int)>
    decreases 256 - acc, pos,
{
    if pos < 0 || pos >= s.len() || acc < 0 || acc > 254 {
        None
    } else {
        let b = s[pos];
        if b == 0 {
            Some((seq![], pos + 1))
        } else if b >= 0xc0 {
            if pos + 1 >= s.len() {
                None
            } else {
                let target = (b - 0xc0) * 256 + s[pos + 1];
                if target >= pos {
                    None
                } else {
                    match wire_labels(s, target, acc) {
                        Some((ls, _)) => Some((ls, pos + 2)),
                        None => None,
                    }
                }
            }
        } else if b >= 0x40 {
            None
        } else if pos + 1 + b > s.len() || acc + 1 + b > 254 {
            None
        } else {
            match wire_labels(s, pos + 1 + b, acc + 1 + b) {
                Some((ls, e)) => Some((seq![s.subrange(pos + 1, pos + 1 + b)] + ls, e)),
                None => None,
            }
        }
    }
}

/// The text of the name at `pos` of `s` and the position after it: its labels
/// joined by dots must be valid UTF-8.
pub open spec fn parse_name(s: Seq<u8>, pos: int) -> Option<(Seq<char>, int)> {
    match wire_labels(s, pos, 0) {
        Some((ls, e)) => if valid_utf8(join_octets(ls)) {
            Some((decode_utf8(join_octets(ls)), e))
        } else {
            None
        },
        None => None,
    }
}

/// The wire form of a name's text, if its labels fit.
pub open spec fn text_wire(t: Seq<char>) -> Option<Seq<u8>> {
    if labels_fit(label_octets(name_labels(t))) {
        Some(name_wire(label_octets(name_labels(t))))
    } else {
        None
    }
}

pub open spec fn resume(done: Seq<Seq<u8>>, r: Option<(Seq<Seq<u8>>, int)>, end: Option<usize>) -> Option<(Seq<Seq<u8>>, int)> {
    match r {
        Some((rest, e)) => Some((done + rest, match end { Some(x) => x as int, None => e })),
        None => None,
    }
}

proof fn lemma_split_dots_nonempty(t: Seq<char>)
    ensures
        split_dots(t).len() >= 1,
    decreases t.len(),
{
    if t.len() > 0 {
        lemma_split_dots_nonempty(t.drop_last());
    }
}

proof fn lemma_labels_wire_prefix(ls: Seq<Seq<u8>>, k: int)
    requires
        0 <= k <= ls.len(),
    ensures
        labels_wire(ls.subrange(0, k)).len() <= labels_wire(ls).len(),
    decreases ls.len(),
{
    if k < ls.len() {
        assert(ls.drop_last().subrange(0, k) =~= ls.subrange(0, k));
        lemma_labels_wire_prefix(ls.drop_last(), k);
    } else {
        assert(ls.subrange(0, k) =~= ls);
    }
}

/// Labels joined by dots.
pub open spec fn join_chars(ls: Seq<Seq<char>>) -> Seq<char>
    decreases ls.len(),
{
    if ls.len() == 0 {
        seq![]
    } else if ls.len() == 1 {
        ls[0]
    } else {
        join_chars(ls.drop_last()) + seq!['.'] + ls.last()
    }
}

/// A label as text: not empty, and without a dot.
pub open spec fn plain_label(l: Seq<char>) -> bool {
    l.len() >= 1 && !l.contains('.')
}

proof fn lemma_split_dot_free(l: Seq<char>)
    requires
        !l.contains('.'),
    ensures
        split_dots(l) == seq![l],
    decreases l.len(),
{
    if l.len() > 0 {
        assert(!l.drop_last().contains('.')) by {
            if l.drop_last().contains('.') {
                let i = choose|i: int| 0 <= i < l.drop_last().len() && l.drop_last()[i] == '.';
                assert(l[i] == '.');
            }
        }
        lemma_split_dot_free(l.drop_last());
        assert(l[l.len() - 1] != '.');
        assert(l.drop_last().push(l.last()) =~= l);
        assert(split_dots(l) =~= seq![l]);
    } else {
        assert(l =~= Seq::<char>::empty());
    }
}

proof fn lemma_split_concat(a: Seq<char>, b: Seq<char>)
    ensures
        split_dots(a + seq!['.'] + b) == split_dots(a) + split_dots(b),
    decreases b.len(),
{
    let x = a + seq!['.'] + b;
    if b.len() == 0 {
        assert(x.drop_last() =~= a);
        assert(split_dots(b) =~= seq![seq![]]);
        assert(split_dots(x) =~= split_dots(a) + split_dots(b));
    } else {
        assert(x.drop_last() =~= a + seq!['.'] + b.drop_last());
        assert(x.last() == b.last());
        lemma_split_concat(a, b.drop_last());
        lemma_split_dots_nonempty(b.drop_last());
        lemma_split_dots_nonempty(a);
        assert(split_dots(x) =~= split_dots(a) + split_dots(b));
    }
}

proof fn lemma_split_join(ls: Seq<Seq<char>>)
    requires
        ls.len() >= 1,
        forall|i: int| 0 <= i < ls.len() ==> plain_label(#[trigger] ls[i]),
    ensures
        split_dots(join_chars(ls)) == ls,
    decreases ls.len(),
{
    if ls.len() == 1 {
        assert(plain_label(ls[0]));
        lemma_split_dot_free(ls[0]);
        assert(seq![ls[0]] =~= ls);
    } else {
        let init = ls.drop_last();
        assert forall|i: int| 0 <= i < init.len() implies plain_label(#[trigger] init[i]) by {
            assert(init[i] == ls[i]);
        }
        lemma_split_join(init);
        assert(plain_label(ls[ls.len() - 1]));
        lemma_split_dot_free(ls.last());
        lemma_split_concat(join_chars(init), ls.last());
        assert(init + seq![ls.last()] =~= ls);
    }
}

proof fn lemma_name_labels_join(ls: Seq<Seq<char>>)
    requires
        forall|i: int| 0 <= i < ls.len() ==> plain_label(#[trigger] ls[i]),
    ensures
        name_labels(join_chars(ls)) == ls,
{
    if ls.len() > 0 {
        lemma_split_join(ls);
        assert(plain_label(ls[ls.len() - 1]));
        let t = join_chars(ls);
        if t.len() == 0 {
            assert(split_dots(t) =~= seq![seq![]]);
        }
    }
}

pub proof fn lemma_labels_wire_front(l: Seq<u8>, rest: Seq<Seq<u8>>)
    ensures
        labels_wire(seq![l] + rest) == seq![l.len() as u8] + l + labels_wire(rest),
    decreases rest.len(),
{
    let x = seq![l] + rest;
    if rest.len() == 0 {
        assert(x =~= seq![l]);
        assert(x.drop_last() =~= Seq::<Seq<u8>>::empty());
        assert(x.last() == l);
        assert(labels_wire(x.drop_last()) == Seq::<u8>::empty());
        assert(labels_wire(rest) == Seq::<u8>::empty());
        assert(labels_wire(x) == labels_wire(x.drop_last()) + seq![x.last().len() as u8] + x.last());
        assert(labels_wire(x) =~= seq![l.len() as u8] + l + labels_wire(rest));
    } else {
        assert(x.drop_last() =~= seq![l] + rest.drop_last());
        assert(x.last() == rest.last());
        lemma_labels_wire_front(l, rest.drop_last());
        assert(labels_wire(x) == labels_wire(x.drop_last()) + seq![x.last().len() as u8] + x.last());
        assert(labels_wire(rest) == labels_wire(rest.drop_last()) + seq![rest.last().len() as u8] + rest.last());
        assert(labels_wire(x) =~= seq![l.len() as u8] + l + labels_wire(rest));
    }
}

/// Uncompressed labels at `pos` read back as themselves.
proof fn lemma_wire_labels_plain(s: Seq<u8>, p: int, acc: int, ls: Seq<Seq<u8>>)
    requires
        0 <= p,
        0 <= acc,
        acc + labels_wire(ls).len() <= 254,
        forall|i: int| 0 <= i < ls.len() ==> 1 <= #[trigger] ls[i].len() <= 63,
        p + labels_wire(ls).len() + 1 <= s.len(),
        s.subrange(p, p + labels_wire(ls).len() + 1) == name_wire(ls),
    ensures
        wire_labels(s, p, acc) == Some((ls, p + labels_wire(ls).len() + 1)),
    decreases ls.len(),
{
    if ls.len() == 0 {
        assert(s[p] == name_wire(ls)[0]);
    } else {
        let l = ls[0];
        let rest = ls.drop_first();
        assert(ls =~= seq![l] + rest);
        lemma_labels_wire_front(l, rest);
        let b = l.len() as int;
        assert(1 <= b <= 63);
        assert(s[p] == name_wire(ls)[0]);
        assert(s[p] == b as u8);
        let next = p + 1 + b;
        let n2 = labels_wire(rest).len() as int;
        assert(s.subrange(next, next + n2 + 1) =~= name_wire(rest)) by {
            assert(s.subrange(next, next + n2 + 1) =~= s.subrange(p, p + labels_wire(ls).len() + 1).subrange(1 + b, 1 + b + n2 + 1));
        }
        assert(s.subrange(p + 1, p + 1 + b) =~= l) by {
            assert(s.subrange(p + 1, p + 1 + b) =~= s.subrange(p, p + labels_wire(ls).len() + 1).subrange(1, 1 + b));
        }
        assert forall|i: int| 0 <= i < rest.len() implies 1 <= #[trigger] rest[i].len() <= 63 by {
            assert(rest[i] == ls[i + 1]);
        }
        lemma_wire_labels_plain(s, next, acc + 1 + b, rest);
    }
}

/// Labels read from the wire each have 1 to 63 octets, and take at most 254
/// octets with what came before them.
pub proof fn lemma_wire_labels_bounds(s: Seq<u8>, p: int, acc: int)
    ensures
        wire_labels(s, p, acc) matches Some((ls, _)) ==> acc + labels_wire(ls).len() <= 254 && forall|i: int|
            0 <= i < ls.len() ==> 1 <= #[trigger] ls[i].len() <= 63,
        wire_labels(s, p, acc) matches Some((_, e)) ==> p < e <= s.len(),
    decreases 256 - acc, p,
{
    if p < 0 || p >= s.len() || acc < 0 || acc > 254 {
    } else {
        let b = s[p];
        if b == 0 {
        } else if b >= 0xc0 {
            if p + 1 < s.len() {
                let target = (b - 0xc0) * 256 + s[p + 1];
                if target < p {
                    lemma_wire_labels_bounds(s, target, acc);
                }
            }
        } else if b >= 0x40 {
        } else if p + 1 + b > s.len() || acc + 1 + b > 254 {
        } else {
            lemma_wire_labels_bounds(s, p + 1 + b, acc + 1 + b);
            match wire_labels(s, p + 1 + b, acc + 1 + b) {
                Some((rest, e)) => {
                    let l = s.subrange(p + 1, p + 1 + b);
                    lemma_labels_wire_front(l, rest);
                    let ls = seq![l] + rest;
                    assert forall|i: int| 0 <= i < ls.len() implies 1 <= #[trigger] ls[i].len() <= 63 by {
                        if i > 0 {
                            assert(ls[i] == rest[i - 1]);
                        }
                    }
                },
                None => {},
            }
        }
    }
}

proof fn lemma_encode_concat(a: Seq<char>, b: Seq<char>)
    ensures
        encode_utf8(a + b) == encode_utf8(a) + encode_utf8(b),
    decreases a.len(),
{
    if a.len() == 0 {
        assert(a + b =~= b);
    } else {
        assert((a + b).drop_first() =~= a.drop_first() + b);
        assert((a + b)[0] == a[0]);
        lemma_encode_concat(a.drop_first(), b);
        assert(encode_utf8(a + b) =~= encode_utf8(a) + encode_utf8(b));
    }
}

proof fn lemma_encode_dot()
    ensures
        encode_utf8(seq!['.']) == seq![46u8],
{
    let c: u32 = '.' as u32;
    assert(c == 46);
    assert((46u32 & 0x7f) as u8 == 46u8) by (bit_vector);
    let d = seq!['.'];
    assert(d.drop_first() =~= Seq::<char>::empty());
    assert(d[0] == '.');
    assert(encode_utf8(d.drop_first()) == Seq::<u8>::empty());
    assert(vstd::utf8::has_width_1_encoding(c));
    assert(vstd::utf8::encode_scalar(c) == seq![46u8]);
    assert(encode_utf8(d) == vstd::utf8::encode_scalar(d[0] as u32) + encode_utf8(d.drop_first()));
    assert(encode_utf8(d) =~= seq![46u8]);
}

proof fn lemma_join_encoded(ls: Seq<Seq<char>>)
    ensures
        join_octets(label_octets(ls)) == encode_utf8(join_chars(ls)),
    decreases ls.len(),
{
    if ls.len() == 1 {
    } else if ls.len() > 1 {
        let init = ls.drop_last();
        assert(label_octets(ls).drop_last() =~= label_octets(init));
        lemma_join_encoded(init);
        lemma_encode_concat(join_chars(init) + seq!['.'], ls.last());
        lemma_encode_concat(join_chars(init), seq!['.']);
        lemma_encode_dot();
    }
}

/// A name made of plain labels that fit the wire form is written as its
/// labels uncompressed, and reading that back gives the same name text.
pub proof fn lemma_name_round_trip(ls: Seq<Seq<char>>)
    requires
        forall|i: int| 0 <= i < ls.len() ==> plain_label(#[trigger] ls[i]),
        labels_fit(label_octets(ls)),
    ensures
        text_wire(join_chars(ls)) == Some(name_wire(label_octets(ls))),
        parse_name(name_wire(label_octets(ls)), 0) == Some(
            (join_chars(ls), name_wire(label_octets(ls)).len() as int),
        ),
{
    lemma_name_labels_join(ls);
    let w = name_wire(label_octets(ls));
    let os = label_octets(ls);
    assert(w.subrange(0, labels_wire(os).len() as int + 1) =~= w);
    lemma_wire_labels_plain(w, 0, 0, os);
    lemma_join_encoded(ls);
    vstd::utf8::encode_utf8_valid_utf8(join_chars(ls));
    vstd::utf8::encode_utf8_decode_utf8(join_chars(ls));
}

/// A name written with compression pointers reads as the same text as its
/// labels written out in full, wherever that uncompressed form stands.
pub proof fn lemma_compressed_name(s: Seq<u8>, p: int, s2: Seq<u8>, pos2: int)
    requires
        wire_labels(s, p, 0) is Some,
        0 <= pos2,
        pos2 + name_wire(wire_labels(s, p, 0)->Some_0.0).len() <= s2.len(),
        s2.subrange(pos2, pos2 + name_wire(wire_labels(s, p, 0)->Some_0.0).len()) == name_wire(
            wire_labels(s, p, 0)->Some_0.0,
        ),
    ensures
        wire_labels(s2, pos2, 0) == Some(
            (
                wire_labels(s, p, 0)->Some_0.0,
                pos2 + name_wire(wire_labels(s, p, 0)->Some_0.0).len(),
            ),
        ),
        parse_name(s, p) is Some <==> parse_name(s2, pos2) is Some,
        parse_name(s, p) matches Some((t, _)) ==> parse_name(s2, pos2) == Some(
            (t, pos2 + name_wire(wire_labels(s, p, 0)->Some_0.0).len()),
        ),
{
    let ls = wire_labels(s, p, 0)->Some_0.0;
    lemma_wire_labels_bounds(s, p, 0);
    lemma_wire_labels_plain(s2, pos2, 0, ls);
}

/// A name text that is exactly its labels joined by dots, each label plain.
pub open spec fn canonical_text(t: Seq<char>) -> bool {
    &&& join_chars(name_labels(t)) == t
    &&& forall|i: int| 0 <= i < name_labels(t).len() ==> plain_label(#[trigger] name_labels(t)[i])
}

/// The wire form of a canonical name, wherever it stands in a buffer, reads
/// back as the name, ending right after it.
pub proof fn lemma_parse_name_at(s: Seq<u8>, p: int, t: Seq<char>)
    requires
        canonical_text(t),
        text_wire(t) is Some,
        0 <= p,
        p + text_wire(t)->Some_0.len() <= s.len(),
        s.subrange(p, p + text_wire(t)->Some_0.len()) == text_wire(t)->Some_0,
    ensures
        parse_name(s, p) == Some((t, p + text_wire(t)->Some_0.len())),
{
    let ls = name_labels(t);
    let os = label_octets(ls);
    lemma_wire_labels_plain(s, p, 0, os);
    lemma_join_encoded(ls);
    vstd::utf8::encode_utf8_valid_utf8(join_chars(ls));
    vstd::utf8::encode_utf8_decode_utf8(join_chars(ls));
}

/// Relies on `String::from_utf8`: it accepts exactly the valid UTF-8 octet
/// sequences, and the string holds the characters they encode.
#[verifier::external_body]
pub(crate) fn utf8_string(bytes: Vec<u8>) -> (r: Option<String>)
    ensures
        r is Some <==> valid_utf8(bytes@),
        r matches Some(t) ==> t@ == decode_utf8(bytes@),
{
    String::from_utf8(bytes).ok()
}

/// Writes labels in wire form, or fails if they do not fit.
pub fn encode_labels(labels: &Vec<Vec<u8>>) -> (r: Result<Vec<u8>, DnsError>)
    ensures
        r is Ok <==> labels_fit(labels.deep_view()),
        r matches Ok(v) ==> v@ == name_wire(labels.deep_view()),
        r matches Err(e) ==> e == DnsError::FormatError,
{
    let ghost ls = labels.deep_view();
    let mut out: Vec<u8> = Vec::new();
    let mut k: usize = 0;
    while k < labels.len()
        invariant
            ls == labels.deep_view(),
            k <= ls.len(),
            out@ == labels_wire(ls.subrange(0, k as int)),
            out@.len() <= 254,
            forall|i: int| 0 <= i < k ==> 1 <= #[trigger] ls[i].len() <= 63,
        decreases ls.len() - k,
    {
        let label = &labels[k];
        assert(label@ == ls[k as int]);
        let len = label.len();
        if len == 0 || len > 63 || out.len() + 1 + len > 254 {
            proof {
                assert(ls.subrange(0, k + 1).drop_last() =~= ls.subrange(0, k as int));
                lemma_labels_wire_prefix(ls, k + 1);
            }
            return Err(DnsError::FormatError);
        }
        out.push(len as u8);
        put_bytes(&mut out, label.as_slice());
        proof {
            assert(ls.subrange(0, k + 1).drop_last() =~= ls.subrange(0, k as int));
        }
        k = k + 1;
    }
    assert(ls.subrange(0, k as int) =~= ls);
    out.push(0);
    Ok(out)
}

/// A domain name: its dotted text and the offsets at which its labels start.
#[derive(Debug)]
pub struct Name {
    name: String,
    split_indices: Vec<usize>,
}

impl View for Name {
    type V = Seq<char>;

    closed spec fn view(&self) -> Seq<char> {
        self.name@
    }
}

impl Name {
    #[verifier::type_invariant]
    spec fn inv(self) -> bool {
        &&& self.split_indices@ == label_starts(self.name@)
        &&& forall|k: int|
            0 <= k < self.split_indices@.len() ==> #[trigger] self.split_indices@[k]
                <= self.name@.len()
    }

    pub fn new(name: &str) -> (r: Name)
        ensures
            r@ == name@,
    {
        let n = name.unicode_len();
        let mut split_indices: Vec<usize> = Vec::new();
        split_indices.push(0);
        let mut i: usize = 0;
        while i < n
            invariant
                n == name@.len(),
                i <= n,
                split_indices@ == seq![0usize] + dot_starts(name@, i as int),
            decreases n - i,
        {
            let c = name.get_char(i);
            if c == '.' && i != n - 1 {
                split_indices.push(i + 1);
                assert(split_indices@ =~= seq![0usize] + dot_starts(name@, i + 1));
            } else {
                assert(split_indices@ =~= seq![0usize] + dot_starts(name@, i + 1));
            }
            i = i + 1;
        }
        proof {
            lemma_dot_starts_bounded(name@, n as int);
        }
        Name { name: name.to_owned(), split_indices }
    }

    /// The UTF-8 octets of each label of the name.
    pub fn octet_labels(&self) -> (r: Vec<Vec<u8>>)
        ensures
            r.deep_view() == label_octets(name_labels(self@)),
    {
        let text = self.name.as_str();
        let ghost t = self@;
        let n = text.unicode_len();
        let mut labels: Vec<Vec<u8>> = Vec::new();
        let mut start: usize = 0;
        let mut i: usize = 0;
        proof {
            assert(t.subrange(0, 0) =~= Seq::<char>::empty());
            assert(label_octets(split_dots(t.subrange(0, 0)).drop_last()) =~= seq![]);
        }
        while i < n
            invariant
                text@ == t,
                n == t.len(),
                start <= i <= n,
                labels.deep_view() == label_octets(split_dots(t.subrange(0, i as int)).drop_last()),
                t.subrange(start as int, i as int) == split_dots(t.subrange(0, i as int)).last(),
            decreases n - i,
        {
            let ghost u = t.subrange(0, i + 1);
            let ghost init = split_dots(t.subrange(0, i as int));
            proof {
                assert(u.drop_last() =~= t.subrange(0, i as int));
                lemma_split_dots_nonempty(t.subrange(0, i as int));
            }
            let c = text.get_char(i);
            if c == '.' {
                let piece = text.substring_char(start, i);
                let v = vstd::slice::slice_to_vec(piece.as_bytes());
                let ghost old_dv = labels.deep_view();
                labels.push(v);
                proof {
                    assert(v.deep_view() =~= v@);
                    assert(labels.deep_view() =~= old_dv.push(v@));
                    assert(split_dots(u) == init.push(seq![]));
                    assert(split_dots(u).drop_last() =~= init);
                    assert(init =~= init.drop_last().push(init.last()));
                    assert(label_octets(init) =~= label_octets(init.drop_last()).push(
                        encode_utf8(init.last()),
                    ));
                    assert(labels.deep_view() =~= label_octets(init));
                    assert(t.subrange(i + 1, i + 1) =~= split_dots(u).last());
                }
                start = i + 1;
            } else {
                proof {
                    assert(split_dots(u) == init.update(init.len() - 1, init.last().push(c)));
                    assert(split_dots(u).drop_last() =~= init.drop_last());
                    assert(t.subrange(start as int, i + 1) =~= t.subrange(start as int, i as int).push(c));
                }
            }
            i = i + 1;
        }
        proof {
            assert(t.subrange(0, n as int) =~= t);
            lemma_split_dots_nonempty(t);
        }
        if n > 0 && start < n {
            let piece = text.substring_char(start, n);
            let v = vstd::slice::slice_to_vec(piece.as_bytes());
            let ghost old_dv = labels.deep_view();
            labels.push(v);
            proof {
                assert(v.deep_view() =~= v@);
                assert(labels.deep_view() =~= old_dv.push(v@));
                let sd = split_dots(t);
                assert(sd =~= sd.drop_last().push(sd.last()));
                assert(label_octets(sd) =~= label_octets(sd.drop_last()).push(encode_utf8(sd.last())));
                assert(labels.deep_view() =~= label_octets(sd));
            }
        } else if n == 0 {
            assert(split_dots(t).drop_last() =~= seq![]);
        }
        labels
    }

    /// The uncompressed wire form of the name.
    pub fn to_bytes(&self) -> (r: Result<Vec<u8>, DnsError>)
        ensures
            text_wire(self@) matches Some(w) ==> (r matches Ok(v) && v@ == w),
            text_wire(self@) is None ==> (r matches Err(e) && e == DnsError::FormatError),
    {
        let labels = self.octet_labels();
        encode_labels(&labels)
    }

    /// Reads the name at `pos` of a message, following compression pointers;
    /// gives it with the position after the name where it stands.
    pub fn from_bytes(buf: &[u8], pos: usize) -> (r: Result<(Name, usize), DnsError>)
        ensures
            parse_name(buf@, pos as int) matches Some((t, e)) ==> (r matches Ok((nm, end)) && nm@
                == t && end == e),
            parse_name(buf@, pos as int) is None ==> (r matches Err(e) && e == DnsError::FormatError),
    {
        let n = buf.len();
        let ghost s = buf@;
        let mut cur: usize = pos;
        let mut acc: usize = 0;
        let mut end: Option<usize> = None;
        let mut joined: Vec<u8> = Vec::new();
        let ghost mut done: Seq<Seq<u8>> = seq![];
        let mut any = false;
        loop
            invariant
                any == (done.len() > 0),
                n == s.len(),
                s == buf@,
                acc <= 254,
                wire_labels(s, pos as int, 0) == resume(done, wire_labels(s, cur as int, acc as int), end),
                joined@ == join_octets(done),
                end matches Some(x) ==> x <= n,
            decreases 256 - acc, cur,
        {
            if cur >= n {
                return Err(DnsError::FormatError);
            }
            let b = buf[cur];
            if b == 0 {
                let stop = match end {
                    Some(x) => x,
                    None => cur + 1,
                };
                assert(wire_labels(s, pos as int, 0) == Some((done, stop as int))) by {
                    assert(done + seq![] =~= done);
                }
                match utf8_string(joined) {
                    Some(text) => {
                        let nm = Name::new(text.as_str());
                        return Ok((nm, stop));
                    },
                    None => {
                        return Err(DnsError::FormatError);
                    },
                }
            } else if b >= 0xc0 {
                if cur + 1 >= n {
                    return Err(DnsError::FormatError);
                }
                let target = ((b - 0xc0) as usize) * 256 + (buf[cur + 1] as usize);
                if target >= cur {
                    return Err(DnsError::FormatError);
                }
                if end.is_none() {
                    end = Some(cur + 2);
                }
                cur = target;
            } else if b >= 0x40 {
                return Err(DnsError::FormatError);
            } else {
                let len = b as usize;
                if len >= n - cur || acc + 1 + len > 254 {
                    return Err(DnsError::FormatError);
                }
                let label = slice_subrange(buf, cur + 1, cur + 1 + len);
                if any {
                    joined.push(46u8);
                }
                put_bytes(&mut joined, label);
                proof {
                    let l = s.subrange(cur + 1, cur + 1 + len);
                    let nd = done.push(l);
                    assert(nd.drop_last() =~= done);
                    if done.len() == 0 {
                        assert(joined@ =~= join_octets(nd));
                    } else {
                        assert(joined@ =~= join_octets(nd));
                    }
                    match wire_labels(s, cur + 1 + len, acc + 1 + len) {
                        Some((rest, e)) => {
                            assert(done + (seq![l] + rest) =~= nd + rest);
                        },
                        None => {},
                    }
                    done = nd;
                }
                any = true;
                acc = acc + 1 + len;
                cur = cur + 1 + len;
            }
        }
    }

    pub fn as_str(&self) -> (r: &str)
        ensures
            r@ == self@,
    {
        self.name.as_str()
    }

    /// Larger and larger suffixes of the name, one per label.
    pub fn iter_subdomains(&self) -> (r: Vec<String>)
        ensures
            r@.len() == subdomains(self@).len(),
            forall|k: int| 0 <= k < r@.len() ==> #[trigger] r@[k]@ == subdomains(self@)[k],
    {
        proof {
            use_type_invariant(self);
        }
        let text = self.name.as_str();
        let len = text.unicode_len();
        let count = self.split_indices.len();
        let mut out: Vec<String> = Vec::new();
        let mut k: usize = 0;
        while k < count
            invariant
                count == self.split_indices@.len(),
                len == self@.len(),
                text@ == self@,
                k <= count,
                self.split_indices@ == label_starts(self@),
                forall|j: int|
                    0 <= j < self.split_indices@.len() ==> #[trigger] self.split_indices@[j]
                        <= self@.len(),
                out@.len() == k,
                forall|j: int| 0 <= j < k ==> #[trigger] out@[j]@ == subdomains(self@)[j],
            decreases count - k,
        {
            let start = self.split_indices[count - 1 - k];
            let sub = text.substring_char(start, len);
            out.push(sub.to_owned());
            k = k + 1;
        }
        out
    }

    /// How many labels, counted from the right, the two names share.
    pub fn matching_level(&self, other: &Name) -> (r: usize)
        ensures
            r == matching_level_spec(self@, other@),
    {
        let a = self.iter_subdomains();
        let b = other.iter_subdomains();
        let ghost sa = subdomains(self@);
        let ghost sb = subdomains(other@);
        let mut i: usize = 0;
        while i < a.len() && i < b.len() && a[i] == b[i]
            invariant
                a@.len() == sa.len(),
                b@.len() == sb.len(),
                forall|k: int| 0 <= k < a@.len() ==> #[trigger] a@[k]@ == sa[k],
                forall|k: int| 0 <= k < b@.len() ==> #[trigger] b@[k]@ == sb[k],
                i <= a@.len(),
                agree_from(sa, sb, 0) == agree_from(sa, sb, i as int),
            decreases a@.len() - i,
        {
            i = i + 1;
        }
        i
    }
}

impl Clone for Name {
    fn clone(&self) -> (r: Self)
        ensures
            r@ == self@,
    {
        proof {
            use_type_invariant(self);
        }
        let split_indices = self.split_indices.clone();
        assert(split_indices@ =~= self.split_indices@);
        Name { name: self.name.clone(), split_indices }
    }
}

impl PartialEq for Name {
    fn eq(&self, other: &Name) -> (r: bool)
        ensures
            r == (self@ == other@),
    {
        self.name == other.name
    }
}

impl vstd::std_specs::cmp::PartialEqSpecImpl for Name {
    open spec fn obeys_eq_spec() -> bool {
        true
    }

    open spec fn eq_spec(&self, other: &Name) -> bool {
        self@ == other@
    }
}

impl Eq for Name {

}

} // verus!
