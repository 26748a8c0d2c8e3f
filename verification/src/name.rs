//! Domain names as label sequences, with the canonical (ASCII
//! case-insensitive) comparison that DNSSEC uses to order a zone.
//!
//! A name is modelled as a sequence of labels, each label a sequence of
//! bytes. A well-formed name keeps every label between 1 and 63 bytes and
//! fits in 255 bytes of wire encoding. Names are built either from raw
//! labels (as a resolver hands them back) or by parsing dotted text (as a
//! caller supplies the starting name); both constructors state exactly which
//! inputs they accept.

use vstd::prelude::*;
use vstd::string::StringSliceAdditionalSpecFns;

verus! {

/// The byte that separates labels in dotted text form.
pub const DOT: u8 = 0x2e;

/// Longest label the wire format can carry.
pub const MAX_LABEL_LEN: usize = 63;

/// Longest whole name the wire format can carry, in encoded bytes.
pub const MAX_WIRE_LEN: usize = 255;

/// ASCII uppercase letters fold to lowercase; every other byte is fixed.
pub open spec fn canon_byte(b: u8) -> u8 {
    if 0x41 <= b && b <= 0x5a {
        (b + 0x20) as u8
    } else {
        b
    }
}

/// Canonical form of one label: each byte case-folded.
pub open spec fn canon_label(l: Seq<u8>) -> Seq<u8> {
    l.map_values(|b: u8| canon_byte(b))
}

/// Canonical form of a whole name: each label case-folded.
pub open spec fn canon_name(n: Seq<Seq<u8>>) -> Seq<Seq<u8>> {
    n.map_values(|l: Seq<u8>| canon_label(l))
}

/// Two bytes are the same letter up to ASCII case, or identical.
pub open spec fn case_variant_byte(x: u8, y: u8) -> bool {
    x == y || (0x41 <= x && x <= 0x5a && y == x + 0x20) || (0x61 <= x && x <= 0x7a && y == x
        - 0x20)
}

/// Two names agree label by label and byte by byte, up to ASCII case.
pub open spec fn names_match_nocase(a: Seq<Seq<u8>>, b: Seq<Seq<u8>>) -> bool {
    &&& a.len() == b.len()
    &&& forall|i: int| 0 <= i < a.len() ==> #[trigger] a[i].len() == b[i].len()
    &&& forall|i: int, j: int|
        0 <= i < a.len() && 0 <= j < a[i].len() ==> case_variant_byte(
            #[trigger] a[i][j],
            b[i][j],
        )
}

/// Canonical equality is exactly agreement up to ASCII case.
///
/// In particular a walk's closure test, which compares canonical forms,
/// accepts a next-owner name whose spelling differs from the start name
/// only in letter case.
pub proof fn lemma_canon_eq_is_nocase_match(a: Seq<Seq<u8>>, b: Seq<Seq<u8>>)
    ensures
        canon_name(a) == canon_name(b) <==> names_match_nocase(a, b),
{
    if names_match_nocase(a, b) {
        assert forall|i: int| 0 <= i < a.len() implies canon_label(#[trigger] a[i])
            == canon_label(b[i]) by {
            assert forall|j: int| 0 <= j < a[i].len() implies canon_byte(#[trigger] a[i][j])
                == canon_byte(b[i][j]) by {
                assert(case_variant_byte(a[i][j], b[i][j]));
            }
            assert(canon_label(a[i]) =~= canon_label(b[i]));
        }
        assert(canon_name(a) =~= canon_name(b));
    }
    if canon_name(a) == canon_name(b) {
        assert(canon_name(a).len() == a.len());
        assert(canon_name(b).len() == b.len());
        assert forall|i: int| 0 <= i < a.len() implies #[trigger] a[i].len() == b[i].len() by {
            assert(canon_name(a)[i] == canon_name(b)[i]);
            assert(canon_label(a[i]).len() == a[i].len());
            assert(canon_label(b[i]).len() == b[i].len());
        }
        assert forall|i: int, j: int|
            0 <= i < a.len() && 0 <= j < a[i].len() implies case_variant_byte(
            #[trigger] a[i][j],
            b[i][j],
        ) by {
            assert(canon_name(a)[i] == canon_name(b)[i]);
            assert(canon_label(a[i])[j] == canon_label(b[i])[j]);
            assert(canon_byte(a[i][j]) == canon_byte(b[i][j]));
        }
    }
}

/// Bytes a dotted-text name may carry inside a label: visible ASCII other
/// than the label separator.
pub open spec fn text_byte_ok(b: u8) -> bool {
    0x21 <= b && b <= 0x7e && b != DOT
}

/// A label the wire format accepts: non-empty and at most 63 bytes.
pub open spec fn label_wf(l: Seq<u8>) -> bool {
    1 <= l.len() <= MAX_LABEL_LEN
}

/// Encoded size of a name on the wire: one length byte per label, the
/// label bytes themselves, and the terminating root length byte.
pub open spec fn wire_len(labels: Seq<Seq<u8>>) -> int
    decreases labels.len(),
{
    if labels.len() == 0 {
        1
    } else {
        wire_len(labels.drop_last()) + 1 + labels.last().len()
    }
}

/// A well-formed name: every label within limits, and the whole encoding
/// within 255 bytes.
pub open spec fn name_wf(labels: Seq<Seq<u8>>) -> bool {
    &&& forall|i: int| 0 <= i < labels.len() ==> label_wf(#[trigger] labels[i])
    &&& wire_len(labels) <= MAX_WIRE_LEN
}

/// The labels a vector of byte vectors stands for.
pub open spec fn labels_view(labels: Seq<Vec<u8>>) -> Seq<Seq<u8>> {
    labels.map_values(|l: Vec<u8>| l@)
}

pub proof fn lemma_wire_len_take_succ(labels: Seq<Seq<u8>>, k: int)
    requires
        0 <= k < labels.len(),
    ensures
        wire_len(labels.take(k + 1)) == wire_len(labels.take(k)) + 1 + labels[k].len(),
{
    assert(labels.take(k + 1).drop_last() =~= labels.take(k));
    assert(labels.take(k + 1).last() == labels[k]);
}

pub proof fn lemma_wire_len_take_le(labels: Seq<Seq<u8>>, k: int)
    requires
        0 <= k <= labels.len(),
    ensures
        wire_len(labels.take(k)) <= wire_len(labels),
    decreases labels.len() - k,
{
    if k == labels.len() {
        assert(labels.take(k) =~= labels);
    } else {
        lemma_wire_len_take_succ(labels, k);
        lemma_wire_len_take_le(labels, k + 1);
    }
}

/// Index of the first separator byte in `s`, or `s.len()` if there is none.
pub open spec fn first_dot(s: Seq<u8>) -> int
    decreases s.len(),
{
    if s.len() == 0 {
        0
    } else if s[0] == DOT {
        0
    } else {
        1 + first_dot(s.drop_first())
    }
}

/// The chunks of `s` between separator bytes, separators dropped. Adjacent
/// or leading separators yield empty chunks; a trailing separator yields a
/// trailing empty chunk.
pub open spec fn split_dots(s: Seq<u8>) -> Seq<Seq<u8>>
    decreases s.len(),
{
    let i = first_dot(s);
    if 0 <= i < s.len() {
        seq![s.subrange(0, i)] + split_dots(s.subrange(i + 1, s.len() as int))
    } else {
        seq![s]
    }
}

/// Text with one trailing separator means the same fully-qualified name as
/// text without it; the trailing separator is dropped before splitting.
pub open spec fn strip_root_dot(s: Seq<u8>) -> Seq<u8> {
    if s.len() > 0 && s.last() == DOT {
        s.drop_last()
    } else {
        s
    }
}

/// The labels a piece of dotted text stands for. The sole root separator
/// stands for the empty sequence of labels.
pub open spec fn parsed_labels(s: Seq<u8>) -> Seq<Seq<u8>> {
    let t = strip_root_dot(s);
    if t.len() == 0 {
        Seq::empty()
    } else {
        split_dots(t)
    }
}

/// Dotted text that reads as a domain name: non-empty, every label between
/// 1 and 63 visible non-separator ASCII bytes, whole encoding at most 255
/// bytes.
pub open spec fn text_valid(s: Seq<u8>) -> bool {
    let labels = parsed_labels(s);
    &&& s.len() > 0
    &&& forall|i: int| 0 <= i < labels.len() ==> label_wf(#[trigger] labels[i])
    &&& forall|i: int, j: int|
        0 <= i < labels.len() && 0 <= j < labels[i].len() ==> text_byte_ok(#[trigger] labels[i][j])
    &&& wire_len(labels) <= MAX_WIRE_LEN
}

pub proof fn lemma_first_dot_bounds(s: Seq<u8>)
    ensures
        0 <= first_dot(s) <= s.len(),
    decreases s.len(),
{
    if s.len() == 0 || s[0] == DOT {
    } else {
        lemma_first_dot_bounds(s.drop_first());
    }
}

pub proof fn lemma_first_dot_ge(s: Seq<u8>, m: int)
    requires
        0 <= m <= s.len(),
        forall|k: int| 0 <= k < m ==> s[k] != DOT,
    ensures
        first_dot(s) >= m,
    decreases m,
{
    lemma_first_dot_bounds(s);
    if m > 0 {
        assert(s[0] != DOT);
        assert forall|k: int| 0 <= k < m - 1 implies s.drop_first()[k] != DOT by {
            assert(s.drop_first()[k] == s[k + 1]);
        }
        lemma_first_dot_ge(s.drop_first(), m - 1);
    }
}

pub proof fn lemma_first_dot_is(s: Seq<u8>, m: int)
    requires
        0 <= m <= s.len(),
        forall|k: int| 0 <= k < m ==> s[k] != DOT,
        m < s.len() ==> s[m] == DOT,
    ensures
        first_dot(s) == m,
    decreases m,
{
    lemma_first_dot_ge(s, m);
    if m == s.len() {
        lemma_first_dot_bounds(s);
    } else if m == 0 {
    } else {
        assert(s[0] != DOT);
        assert forall|k: int| 0 <= k < m - 1 implies s.drop_first()[k] != DOT by {
            assert(s.drop_first()[k] == s[k + 1]);
        }
        assert(s.drop_first()[m - 1] == s[m]);
        lemma_first_dot_is(s.drop_first(), m - 1);
    }
}

pub proof fn lemma_labels_view_push(pre: Seq<Vec<u8>>, v: Vec<u8>)
    ensures
        labels_view(pre.push(v)) =~= labels_view(pre).push(v@),
{
    assert forall|k: int| 0 <= k < pre.len() + 1 implies labels_view(pre.push(v))[k]
        == labels_view(pre).push(v@)[k] by {
        if k < pre.len() {
            assert(pre.push(v)[k] == pre[k]);
        } else {
            assert(pre.push(v)[k] == v);
        }
    }
}

/// Raised when a piece of text cannot be read as a domain name, or raw
/// labels break the wire-format limits. Purely an input-validation failure:
/// construction never performs a query.
#[derive(Clone, Copy, Debug, PartialEq, Eq)]
pub struct NameSyntaxError;

/// An immutable domain name: a sequence of labels, compared canonically.
#[derive(Debug, PartialEq, Eq)]
pub struct DomainName {
    labels: Vec<Vec<u8>>,
}

impl View for DomainName {
    type V = Seq<Seq<u8>>;

    closed spec fn view(&self) -> Seq<Seq<u8>> {
        labels_view(self.labels@)
    }
}

impl Clone for DomainName {
    fn clone(&self) -> (r: Self)
        ensures
            r@ == self@,
    {
        let mut labels: Vec<Vec<u8>> = Vec::new();
        let mut i: usize = 0;
        while i < self.labels.len()
            invariant
                i <= self.labels@.len(),
                labels@.len() == i,
                labels_view(labels@) =~= self@.take(i as int),
            decreases self.labels@.len() - i,
        {
            let src = &self.labels[i];
            let mut lab: Vec<u8> = Vec::new();
            let mut j: usize = 0;
            while j < src.len()
                invariant
                    j <= src@.len(),
                    lab@ =~= src@.take(j as int),
                decreases src@.len() - j,
            {
                lab.push(src[j]);
                j = j + 1;
            }
            assert(lab@ =~= src@);
            let ghost pre = labels@;
            labels.push(lab);
            proof {
                assert forall|k: int| 0 <= k < i + 1 implies labels_view(labels@)[k] == self@.take(
                    i as int + 1,
                )[k] by {
                    if k < i {
                        assert(labels_view(pre)[k] == self@.take(i as int)[k]);
                        assert(labels@[k] == pre[k]);
                    } else {
                        assert(labels@[k]@ == self.labels@[k]@);
                    }
                }
                assert(labels_view(labels@) =~= self@.take(i as int + 1));
            }
            i = i + 1;
        }
        assert(labels_view(labels@) =~= self@);
        DomainName { labels }
    }
}

impl DomainName {
    /// Build a name from raw labels, as a resolver reports them.
    ///
    /// Accepts exactly the label sequences that fit the wire format: every
    /// label between 1 and 63 bytes, whole encoding at most 255 bytes.
    pub fn from_labels(labels: Vec<Vec<u8>>) -> (r: Result<DomainName, NameSyntaxError>)
        ensures
            r is Ok <==> name_wf(labels_view(labels@)),
            r is Ok ==> r.unwrap()@ == labels_view(labels@),
    {
        let ghost dv = labels_view(labels@);
        let mut total: usize = 1;
        let mut i: usize = 0;
        while i < labels.len()
            invariant
                i <= labels@.len(),
                dv == labels_view(labels@),
                total == wire_len(dv.take(i as int)),
                total <= MAX_WIRE_LEN,
                forall|k: int| 0 <= k < i ==> label_wf(#[trigger] dv[k]),
            decreases labels@.len() - i,
        {
            let n = labels[i].len();
            assert(dv[i as int] == labels@[i as int]@);
            if n < 1 || n > MAX_LABEL_LEN {
                assert(!label_wf(dv[i as int]));
                return Err(NameSyntaxError);
            }
            proof {
                lemma_wire_len_take_succ(dv, i as int);
            }
            if total + 1 + n > MAX_WIRE_LEN {
                proof {
                    lemma_wire_len_take_le(dv, i as int + 1);
                }
                return Err(NameSyntaxError);
            }
            total = total + 1 + n;
            i = i + 1;
        }
        assert(dv.take(labels@.len() as int) =~= dv);
        Ok(DomainName { labels })
    }

    /// Read a name from dotted text, such as `www.example.com.`.
    ///
    /// Accepts exactly the strings whose bytes form a valid dotted name: a
    /// sole trailing dot is allowed (and dropped), `.` alone means the root,
    /// and every label must be 1 to 63 visible ASCII bytes within an overall
    /// encoded length of 255.
    pub fn parse(s: &str) -> (r: Result<DomainName, NameSyntaxError>)
        ensures
            r is Ok <==> text_valid(s.spec_bytes()),
            r is Ok ==> r.unwrap()@ == parsed_labels(s.spec_bytes()),
    {
        DomainName::from_text(s.as_bytes())
    }

    /// Read a name from the bytes of dotted text; see `parse`.
    pub fn from_text(bytes: &[u8]) -> (r: Result<DomainName, NameSyntaxError>)
        ensures
            r is Ok <==> text_valid(bytes@),
            r is Ok ==> r.unwrap()@ == parsed_labels(bytes@),
    {
        let n = bytes.len();
        if n == 0 {
            return Err(NameSyntaxError);
        }
        let end: usize = if bytes[n - 1] == DOT {
            n - 1
        } else {
            n
        };
        let ghost t = strip_root_dot(bytes@);
        proof {
            assert(t =~= bytes@.subrange(0, end as int));
        }
        if end == 0 {
            let labels: Vec<Vec<u8>> = Vec::new();
            assert(labels_view(labels@) =~= parsed_labels(bytes@));
            return Ok(DomainName { labels });
        }
        let ghost parsed = parsed_labels(bytes@);
        assert(parsed == split_dots(t));
        let mut labels: Vec<Vec<u8>> = Vec::new();
        let mut cur: Vec<u8> = Vec::new();
        let mut total: usize = 1;
        let mut j: usize = 0;
        proof {
            assert(labels_view(labels@) =~= Seq::<Seq<u8>>::empty());
            assert(t.subrange(0, end as int) =~= t);
            assert(labels_view(labels@) + split_dots(t) =~= split_dots(t));
        }
        while j < end
            invariant
                1 <= end <= bytes@.len(),
                t == strip_root_dot(bytes@),
                t =~= bytes@.subrange(0, end as int),
                t.len() == end,
                parsed == parsed_labels(bytes@),
                parsed == split_dots(t),
                cur@.len() <= j <= end,
                cur@.len() <= MAX_LABEL_LEN,
                cur@ =~= t.subrange(j - cur@.len(), j as int),
                forall|k: int|
                    0 <= k < cur@.len() ==> #[trigger] cur@[k] != DOT && text_byte_ok(cur@[k]),
                parsed == labels_view(labels@) + split_dots(
                    t.subrange(j - cur@.len(), end as int),
                ),
                forall|k: int|
                    0 <= k < labels@.len() ==> label_wf(#[trigger] labels_view(labels@)[k]),
                forall|k: int, k2: int|
                    0 <= k < labels@.len() && 0 <= k2 < labels_view(labels@)[k].len()
                        ==> text_byte_ok(#[trigger] labels_view(labels@)[k][k2]),
                total == wire_len(labels_view(labels@)),
                total <= MAX_WIRE_LEN,
            decreases end - j,
        {
            let ghost cs = j - cur@.len();
            let ghost rest = t.subrange(cs, end as int);
            let ghost lv = labels_view(labels@);
            assert(parsed == lv + split_dots(rest));
            assert(split_dots(rest).len() >= 1);
            assert(parsed[lv.len() as int] == split_dots(rest)[0]);
            let b = bytes[j];
            assert(rest[j - cs] == t[j as int] && t[j as int] == bytes@[j as int]);
            assert forall|k: int| 0 <= k < cur@.len() implies rest[k] != DOT
                && text_byte_ok(rest[k]) by {
                assert(rest[k] == cur@[k]);
            }
            if b == DOT {
                proof {
                    lemma_first_dot_is(rest, cur@.len() as int);
                    assert(split_dots(rest) == seq![rest.subrange(0, cur@.len() as int)]
                        + split_dots(rest.subrange(cur@.len() as int + 1, rest.len() as int)));
                    assert(rest.subrange(0, cur@.len() as int) =~= cur@);
                    assert(split_dots(rest)[0] == cur@);
                }
                if cur.len() == 0 {
                    assert(!label_wf(parsed[lv.len() as int]));
                    return Err(NameSyntaxError);
                }
                proof {
                    assert(lv.push(cur@) =~= parsed.take(lv.len() as int + 1));
                    assert(lv.push(cur@).drop_last() =~= lv);
                    assert(wire_len(parsed.take(lv.len() as int + 1)) == wire_len(lv) + 1 + cur@.len());
                    lemma_wire_len_take_le(parsed, lv.len() as int + 1);
                }
                if total + 1 + cur.len() > MAX_WIRE_LEN {
                    return Err(NameSyntaxError);
                }
                total = total + 1 + cur.len();
                let ghost pre = labels@;
                let ghost curv = cur@;
                labels.push(cur);
                cur = Vec::new();
                proof {
                    lemma_labels_view_push(pre, labels@.last());
                    assert(labels_view(labels@) =~= lv.push(curv));
                    assert(labels_view(labels@).drop_last() =~= lv);
                    assert(rest.subrange(curv.len() as int + 1, rest.len() as int) =~= t.subrange(
                        j + 1,
                        end as int,
                    ));
                    assert(lv + (seq![curv] + split_dots(t.subrange(j + 1, end as int)))
                        =~= lv.push(curv) + split_dots(t.subrange(j + 1, end as int)));
                    assert(cur@ =~= t.subrange(j + 1 - cur@.len(), j as int + 1));
                }
                j = j + 1;
            } else {
                proof {
                    lemma_first_dot_ge(rest, cur@.len() as int + 1);
                    lemma_first_dot_bounds(rest);
                    if first_dot(rest) < rest.len() {
                        assert(split_dots(rest)[0] == rest.subrange(0, first_dot(rest)));
                    } else {
                        assert(split_dots(rest)[0] == rest);
                        assert(rest =~= rest.subrange(0, first_dot(rest)));
                    }
                    assert(split_dots(rest)[0].len() >= cur@.len() as int + 1);
                    assert(split_dots(rest)[0][cur@.len() as int] == rest[j - cs]);
                }
                if b < 0x21 || b > 0x7e {
                    assert(!text_byte_ok(parsed[lv.len() as int][cur@.len() as int]));
                    return Err(NameSyntaxError);
                }
                if cur.len() == MAX_LABEL_LEN {
                    assert(!label_wf(parsed[lv.len() as int]));
                    return Err(NameSyntaxError);
                }
                cur.push(b);
                j = j + 1;
                assert(cur@ =~= t.subrange(j - cur@.len(), j as int));
            }
        }
        let ghost cs = end - cur@.len();
        let ghost rest = t.subrange(cs, end as int);
        let ghost lv = labels_view(labels@);
        assert(parsed == lv + split_dots(rest));
        assert(split_dots(rest).len() >= 1);
        assert(parsed[lv.len() as int] == split_dots(rest)[0]);
        assert forall|k: int| 0 <= k < cur@.len() implies rest[k] != DOT && text_byte_ok(
            rest[k],
        ) by {
            assert(rest[k] == cur@[k]);
        }
        proof {
            lemma_first_dot_is(rest, rest.len() as int);
            assert(split_dots(rest) == seq![rest]);
            assert(rest =~= cur@);
        }
        if cur.len() == 0 {
            assert(!label_wf(parsed[lv.len() as int]));
            return Err(NameSyntaxError);
        }
        proof {
            assert(lv.push(cur@) =~= parsed.take(lv.len() as int + 1));
            assert(lv.push(cur@).drop_last() =~= lv);
            assert(wire_len(parsed.take(lv.len() as int + 1)) == wire_len(lv) + 1 + cur@.len());
            lemma_wire_len_take_le(parsed, lv.len() as int + 1);
        }
        if total + 1 + cur.len() > MAX_WIRE_LEN {
            return Err(NameSyntaxError);
        }
        total = total + 1 + cur.len();
        let ghost pre = labels@;
        let ghost curv = cur@;
        labels.push(cur);
        proof {
            lemma_labels_view_push(pre, labels@.last());
            assert(labels_view(labels@) =~= lv.push(curv));
            assert(lv + seq![curv] =~= lv.push(curv));
            assert(parsed == labels_view(labels@));
            assert(labels_view(labels@).drop_last() =~= lv);
            assert(wire_len(parsed) == total);
            assert forall|k: int| 0 <= k < parsed.len() implies label_wf(#[trigger] parsed[k]) by {
                if k < lv.len() {
                    assert(parsed[k] == lv[k]);
                } else {
                    assert(parsed[k] == curv);
                }
            }
            assert forall|k: int, k2: int|
                0 <= k < parsed.len() && 0 <= k2 < parsed[k].len() implies text_byte_ok(
                #[trigger] parsed[k][k2],
            ) by {
                if k < lv.len() {
                    assert(parsed[k] == lv[k]);
                } else {
                    assert(parsed[k] == curv);
                }
            }
        }
        Ok(DomainName { labels })
    }

    /// The labels this name consists of, in order, case preserved.
    pub fn labels(&self) -> (r: &Vec<Vec<u8>>)
        ensures
            labels_view(r@) == self@,
    {
        &self.labels
    }

    /// How many labels this name has.
    pub fn label_count(&self) -> (r: usize)
        ensures
            r == self@.len(),
    {
        self.labels.len()
    }

    /// Canonical equality: the names agree up to ASCII letter case.
    pub fn canon_eq(&self, other: &DomainName) -> (r: bool)
        ensures
            r == (canon_name(self@) == canon_name(other@)),
    {
        if self.labels.len() != other.labels.len() {
            assert(canon_name(self@).len() == self@.len());
            assert(canon_name(other@).len() == other@.len());
            return false;
        }
        let mut i: usize = 0;
        while i < self.labels.len()
            invariant
                i <= self@.len(),
                self@.len() == other@.len(),
                self.labels@.len() == self@.len(),
                other.labels@.len() == other@.len(),
                forall|k: int|
                    0 <= k < i ==> canon_label(#[trigger] self@[k]) == canon_label(other@[k]),
            decreases self@.len() - i,
        {
            let la = &self.labels[i];
            let lb = &other.labels[i];
            assert(la@ == self@[i as int] && lb@ == other@[i as int]);
            if la.len() != lb.len() {
                assert(canon_label(self@[i as int]).len() != canon_label(other@[i as int]).len());
                assert(canon_name(self@)[i as int] != canon_name(other@)[i as int]);
                return false;
            }
            let mut j: usize = 0;
            while j < la.len()
                invariant
                    j <= la@.len(),
                    la@.len() == lb@.len(),
                    la@ == self@[i as int] && lb@ == other@[i as int],
                    i < self@.len() && self@.len() == other@.len(),
                    forall|k: int|
                        0 <= k < j ==> canon_byte(#[trigger] la@[k]) == canon_byte(lb@[k]),
                decreases la@.len() - j,
            {
                if lower_byte(la[j]) != lower_byte(lb[j]) {
                    assert(canon_label(self@[i as int])[j as int] != canon_label(
                        other@[i as int],
                    )[j as int]);
                    assert(canon_name(self@)[i as int] != canon_name(other@)[i as int]);
                    return false;
                }
                j = j + 1;
            }
            assert(canon_label(self@[i as int]) =~= canon_label(other@[i as int]));
            i = i + 1;
        }
        assert(canon_name(self@) =~~= canon_name(other@));
        true
    }
}

/// Case-fold one byte, mirroring `canon_byte`.
fn lower_byte(b: u8) -> (r: u8)
    ensures
        r == canon_byte(b),
{
    if 0x41 <= b && b <= 0x5a {
        b + 0x20
    } else {
        b
    }
}

} // verus!
