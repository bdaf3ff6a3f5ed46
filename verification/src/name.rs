use vstd::prelude::*;
use vstd::utf8::{encode_utf8, decode_utf8, encode_utf8_decode_utf8};
use vstd::relations::sorted_by;
use vstd::multiset::Multiset;
use vstd::string::StringSliceAdditionalSpecFns;
use vstd::string::StrSliceExecFns;

verus! {

/// A qualified module name: an ordered sequence of namespace segments.
/// An absolute name starts with an empty segment.  Names key the module
/// table and are totally ordered (lexicographically, segment by segment,
/// each segment by its UTF-8 bytes) so that scheduling is deterministic.
pub struct Name {
    pub segments: Vec<String>,
}

impl View for Name {
    type V = Seq<Seq<char>>;

    open spec fn view(&self) -> Seq<Seq<char>> {
        self.segments.deep_view()
    }
}

/// The views of a sequence of names.
pub open spec fn views_of(s: Seq<Name>) -> Seq<Seq<Seq<char>>> {
    s.map_values(|n: Name| n@)
}

/// Lexicographic "less or equal" on byte sequences.
pub open spec fn bytes_le(a: Seq<u8>, b: Seq<u8>) -> bool
    decreases a.len(),
{
    if a.len() == 0 {
        true
    } else if b.len() == 0 {
        false
    } else if a[0] < b[0] {
        true
    } else if a[0] > b[0] {
        false
    } else {
        bytes_le(a.skip(1), b.skip(1))
    }
}

pub proof fn lemma_bytes_le_total(a: Seq<u8>, b: Seq<u8>)
    ensures
        bytes_le(a, b) || bytes_le(b, a),
    decreases a.len(),
{
    if a.len() == 0 || b.len() == 0 {
    } else if a[0] == b[0] {
        lemma_bytes_le_total(a.skip(1), b.skip(1));
    }
}

pub proof fn lemma_bytes_le_antisymmetric(a: Seq<u8>, b: Seq<u8>)
    requires
        bytes_le(a, b),
        bytes_le(b, a),
    ensures
        a == b,
    decreases a.len(),
{
    if a.len() == 0 {
        assert(b.len() == 0);
        assert(a =~= b);
    } else {
        assert(b.len() > 0);
        assert(a[0] == b[0]);
        lemma_bytes_le_antisymmetric(a.skip(1), b.skip(1));
        assert(a.skip(1).len() == a.len() - 1);
        assert(b.skip(1).len() == b.len() - 1);
        assert(a.len() == b.len());
        assert forall|i: int| 0 <= i < a.len() implies a[i] == b[i] by {
            if i > 0 {
                assert(a[i] == a.skip(1)[i - 1]);
                assert(b[i] == b.skip(1)[i - 1]);
            }
        }
        assert(a =~= b);
    }
}

pub proof fn lemma_bytes_le_transitive(a: Seq<u8>, b: Seq<u8>, c: Seq<u8>)
    requires
        bytes_le(a, b),
        bytes_le(b, c),
    ensures
        bytes_le(a, c),
    decreases a.len(),
{
    if a.len() == 0 {
    } else {
        assert(b.len() > 0);
        assert(c.len() > 0);
        if a[0] == b[0] && b[0] == c[0] {
            lemma_bytes_le_transitive(a.skip(1), b.skip(1), c.skip(1));
        }
    }
}

/// The UTF-8 encoding of a character sequence is injective.
pub proof fn lemma_encode_injective(a: Seq<char>, b: Seq<char>)
    requires
        encode_utf8(a) == encode_utf8(b),
    ensures
        a == b,
{
    broadcast use encode_utf8_decode_utf8;

    assert(decode_utf8(encode_utf8(a)) == a);
    assert(decode_utf8(encode_utf8(b)) == b);
}

/// Order on one name segment: by the bytes of its UTF-8 encoding.  This is
/// the order `str` comparison gives in Rust.
pub open spec fn seg_le(a: Seq<char>, b: Seq<char>) -> bool {
    bytes_le(encode_utf8(a), encode_utf8(b))
}

/// Lexicographic "less or equal" on whole names, segment by segment.
pub open spec fn name_le(a: Seq<Seq<char>>, b: Seq<Seq<char>>) -> bool
    decreases a.len(),
{
    if a.len() == 0 {
        true
    } else if b.len() == 0 {
        false
    } else if a[0] == b[0] {
        name_le(a.skip(1), b.skip(1))
    } else {
        seg_le(a[0], b[0])
    }
}

pub proof fn lemma_name_le_total(a: Seq<Seq<char>>, b: Seq<Seq<char>>)
    ensures
        name_le(a, b) || name_le(b, a),
    decreases a.len(),
{
    if a.len() == 0 || b.len() == 0 {
    } else if a[0] == b[0] {
        lemma_name_le_total(a.skip(1), b.skip(1));
    } else {
        lemma_bytes_le_total(encode_utf8(a[0]), encode_utf8(b[0]));
    }
}

pub proof fn lemma_name_le_antisymmetric(a: Seq<Seq<char>>, b: Seq<Seq<char>>)
    requires
        name_le(a, b),
        name_le(b, a),
    ensures
        a == b,
    decreases a.len(),
{
    if a.len() == 0 {
        assert(b.len() == 0);
        assert(a =~= b);
    } else {
        assert(b.len() > 0);
        if a[0] == b[0] {
            lemma_name_le_antisymmetric(a.skip(1), b.skip(1));
            assert(a.skip(1).len() == a.len() - 1);
            assert(b.skip(1).len() == b.len() - 1);
            assert(a.len() == b.len());
            assert forall|i: int| 0 <= i < a.len() implies a[i] == b[i] by {
                if i > 0 {
                    assert(a[i] == a.skip(1)[i - 1]);
                    assert(b[i] == b.skip(1)[i - 1]);
                }
            }
            assert(a =~= b);
        } else {
            lemma_bytes_le_antisymmetric(encode_utf8(a[0]), encode_utf8(b[0]));
            lemma_encode_injective(a[0], b[0]);
        }
    }
}

pub proof fn lemma_name_le_transitive(a: Seq<Seq<char>>, b: Seq<Seq<char>>, c: Seq<Seq<char>>)
    requires
        name_le(a, b),
        name_le(b, c),
    ensures
        name_le(a, c),
    decreases a.len(),
{
    if a.len() == 0 {
    } else {
        assert(b.len() > 0);
        assert(c.len() > 0);
        if a[0] == b[0] && b[0] == c[0] {
            lemma_name_le_transitive(a.skip(1), b.skip(1), c.skip(1));
        } else if a[0] == b[0] {
        } else if b[0] == c[0] {
        } else {
            lemma_bytes_le_transitive(encode_utf8(a[0]), encode_utf8(b[0]), encode_utf8(c[0]));
            if a[0] == c[0] {
                lemma_bytes_le_antisymmetric(encode_utf8(a[0]), encode_utf8(b[0]));
                lemma_encode_injective(a[0], b[0]);
            }
        }
    }
}

/// The order the scheduler sorts module names by.
pub open spec fn name_order() -> spec_fn(Name, Name) -> bool {
    |x: Name, y: Name| name_le(x@, y@)
}

/// Three-way comparison result.
#[derive(PartialEq, Eq, Structural, Clone, Copy, Debug)]
pub enum Rel {
    Less,
    Equal,
    Greater,
}

/// Compares two strings by their UTF-8 bytes, the order `str` itself uses.
pub fn str_cmp(a: &str, b: &str) -> (r: Rel)
    ensures
        (r == Rel::Equal) == (a@ == b@),
        (r == Rel::Less) == (a@ != b@ && seg_le(a@, b@)),
        (r == Rel::Greater) == (a@ != b@ && !seg_le(a@, b@)),
{
    let av = a.as_bytes_vec();
    let bv = b.as_bytes_vec();
    let alen = av.len();
    let blen = bv.len();
    let mut i: usize = 0;
    proof {
        assert(av@.skip(0) =~= av@);
        assert(bv@.skip(0) =~= bv@);
        assert(av@.subrange(0, 0) =~= bv@.subrange(0, 0));
    }
    loop
        invariant
            i <= alen,
            i <= blen,
            alen == av@.len(),
            blen == bv@.len(),
            av@ == encode_utf8(a@),
            bv@ == encode_utf8(b@),
            av@.subrange(0, i as int) =~= bv@.subrange(0, i as int),
            bytes_le(av@, bv@) == bytes_le(av@.skip(i as int), bv@.skip(i as int)),
            bytes_le(bv@, av@) == bytes_le(bv@.skip(i as int), av@.skip(i as int)),
        decreases alen - i,
    {
        if i == alen && i == blen {
            proof {
                assert forall|j: int| 0 <= j < av@.len() implies av@[j] == bv@[j] by {
                    assert(av@[j] == av@.subrange(0, i as int)[j]);
                    assert(bv@[j] == bv@.subrange(0, i as int)[j]);
                }
                assert(av@ =~= bv@);
                lemma_encode_injective(a@, b@);
            }
            return Rel::Equal;
        }
        if i == alen {
            proof {
                assert(av@.skip(i as int).len() == 0);
                assert(bv@.skip(i as int).len() > 0);
                if a@ == b@ {
                    assert(av@ =~= bv@);
                }
            }
            return Rel::Less;
        }
        if i == blen {
            proof {
                assert(bv@.skip(i as int).len() == 0);
                assert(av@.skip(i as int).len() > 0);
                if a@ == b@ {
                    assert(av@ =~= bv@);
                }
            }
            return Rel::Greater;
        }
        let x = av[i];
        let y = bv[i];
        proof {
            assert(av@.skip(i as int)[0] == av@[i as int]);
            assert(bv@.skip(i as int)[0] == bv@[i as int]);
        }
        if x < y {
            proof {
                if a@ == b@ {
                    assert(av@ =~= bv@);
                }
            }
            return Rel::Less;
        }
        if x > y {
            proof {
                if a@ == b@ {
                    assert(av@ =~= bv@);
                }
            }
            return Rel::Greater;
        }
        proof {
            assert(av@.skip(i as int).skip(1) =~= av@.skip(i as int + 1));
            assert(bv@.skip(i as int).skip(1) =~= bv@.skip(i as int + 1));
            assert(av@.subrange(0, i as int + 1) =~= bv@.subrange(0, i as int + 1));
        }
        i = i + 1;
    }
}

impl Name {
    /// The empty (relative) name.
    pub fn empty() -> (r: Name)
        ensures
            r@ =~= Seq::<Seq<char>>::empty(),
    {
        Name { segments: Vec::new() }
    }

    /// Whether the name is absolute: it starts with an empty segment.
    pub fn is_absolute(&self) -> (r: bool)
        ensures
            r == (self@.len() > 0 && self@[0].len() == 0),
    {
        if self.segments.len() == 0 {
            false
        } else {
            self.segments[0].as_str().unicode_len() == 0
        }
    }

    /// Appends one namespace segment.
    pub fn push(&mut self, segment: String)
        ensures
            final(self)@ =~= old(self)@.push(segment@),
    {
        self.segments.push(segment);
    }

    /// Structural equality of two names.
    pub fn same(&self, other: &Name) -> (r: bool)
        ensures
            r == (self@ == other@),
    {
        match self.compare(other) {
            Rel::Equal => true,
            _ => false,
        }
    }

    /// Whether this name comes at or before `other` in the scheduler's order.
    pub fn le(&self, other: &Name) -> (r: bool)
        ensures
            r == name_le(self@, other@),
    {
        match self.compare(other) {
            Rel::Greater => {
                proof {
                    if name_le(self@, other@) {
                        lemma_name_le_antisymmetric(self@, other@);
                    }
                }
                false
            },
            Rel::Equal => {
                proof {
                    lemma_name_le_total(self@, other@);
                }
                true
            },
            Rel::Less => true,
        }
    }

    /// Three-way comparison in the scheduler's order.
    pub fn compare(&self, other: &Name) -> (r: Rel)
        ensures
            (r == Rel::Equal) == (self@ == other@),
            (r == Rel::Less) == (self@ != other@ && name_le(self@, other@)),
            (r == Rel::Greater) == (self@ != other@ && name_le(other@, self@)),
    {
        let alen = self.segments.len();
        let blen = other.segments.len();
        let mut i: usize = 0;
        proof {
            assert(self@.skip(0) =~= self@);
            assert(other@.skip(0) =~= other@);
            assert(self@.subrange(0, 0) =~= other@.subrange(0, 0));
        }
        loop
            invariant
                i <= alen,
                i <= blen,
                alen == self@.len(),
                blen == other@.len(),
                self@.subrange(0, i as int) =~= other@.subrange(0, i as int),
                name_le(self@, other@) == name_le(self@.skip(i as int), other@.skip(i as int)),
                name_le(other@, self@) == name_le(other@.skip(i as int), self@.skip(i as int)),
            decreases alen - i,
        {
            if i == alen && i == blen {
                proof {
                    assert forall|j: int| 0 <= j < self@.len() implies self@[j] == other@[j] by {
                        assert(self@[j] == self@.subrange(0, i as int)[j]);
                        assert(other@[j] == other@.subrange(0, i as int)[j]);
                    }
                    assert(self@ =~= other@);
                }
                return Rel::Equal;
            }
            if i == alen {
                proof {
                    assert(self@.skip(i as int).len() == 0);
                    assert(other@.skip(i as int).len() > 0);
                    assert(self@.len() != other@.len());
                }
                return Rel::Less;
            }
            if i == blen {
                proof {
                    assert(other@.skip(i as int).len() == 0);
                    assert(self@.skip(i as int).len() > 0);
                    assert(self@.len() != other@.len());
                }
                return Rel::Greater;
            }
            proof {
                assert(self@.skip(i as int)[0] == self@[i as int]);
                assert(other@.skip(i as int)[0] == other@[i as int]);
            }
            let c = str_cmp(self.segments[i].as_str(), other.segments[i].as_str());
            match c {
                Rel::Equal => {
                    proof {
                        assert(self@.skip(i as int).skip(1) =~= self@.skip(i as int + 1));
                        assert(other@.skip(i as int).skip(1) =~= other@.skip(i as int + 1));
                        assert(self@.subrange(0, i as int + 1) =~= other@.subrange(
                            0,
                            i as int + 1,
                        ));
                    }
                    i = i + 1;
                },
                Rel::Less => {
                    proof {
                        assert(seg_le(self@[i as int], other@[i as int]));
                        assert(name_le(self@.skip(i as int), other@.skip(i as int)));
                        if name_le(other@.skip(i as int), self@.skip(i as int)) {
                            assert(seg_le(other@[i as int], self@[i as int]));
                            lemma_bytes_le_antisymmetric(
                                encode_utf8(self@[i as int]),
                                encode_utf8(other@[i as int]),
                            );
                            lemma_encode_injective(self@[i as int], other@[i as int]);
                        }
                        assert(self@ != other@);
                    }
                    return Rel::Less;
                },
                Rel::Greater => {
                    proof {
                        lemma_bytes_le_total(
                            encode_utf8(self@[i as int]),
                            encode_utf8(other@[i as int]),
                        );
                        assert(seg_le(other@[i as int], self@[i as int]));
                        assert(name_le(other@.skip(i as int), self@.skip(i as int)));
                        if name_le(self@.skip(i as int), other@.skip(i as int)) {
                            lemma_bytes_le_antisymmetric(
                                encode_utf8(self@[i as int]),
                                encode_utf8(other@[i as int]),
                            );
                            lemma_encode_injective(self@[i as int], other@[i as int]);
                        }
                        assert(self@ != other@);
                    }
                    return Rel::Greater;
                },
            }
        }
    }
}

impl Clone for Name {
    /// A clone is equal to the original, segment for segment.
    fn clone(&self) -> (r: Name)
        ensures
            r@ == self@,
    {
        let mut segments: Vec<String> = Vec::new();
        let mut i: usize = 0;
        while i < self.segments.len()
            invariant
                i <= self.segments.len(),
                segments@.len() == i,
                segments.deep_view() =~= self@.subrange(0, i as int),
            decreases self.segments.len() - i,
        {
            let ghost prefix = segments.deep_view();
            let ghost pre_seq = segments@;
            segments.push(self.segments[i].clone());
            proof {
                assert forall|j: int|
                    0 <= j < i + 1 implies segments.deep_view()[j] == self@.subrange(
                    0,
                    i as int + 1,
                )[j] by {
                    if j < i {
                        assert(segments@[j] == pre_seq[j]);
                        assert(prefix[j] == pre_seq[j].deep_view());
                    }
                }
                assert(segments.deep_view() =~= self@.subrange(0, i as int + 1));
            }
            i = i + 1;
        }
        proof {
            assert(segments.deep_view() =~= self@);
        }
        Name { segments }
    }
}

/// Copies a list of names; the copy is equal view for view.
pub fn clone_names(v: &Vec<Name>) -> (r: Vec<Name>)
    ensures
        views_of(r@) == views_of(v@),
{
    let mut r: Vec<Name> = Vec::new();
    let mut i: usize = 0;
    while i < v.len()
        invariant
            i <= v@.len(),
            r@.len() == i,
            views_of(r@) =~= views_of(v@).take(i as int),
        decreases v@.len() - i,
    {
        r.push(v[i].clone());
        proof {
            assert(views_of(r@) =~= views_of(v@).take(i as int + 1));
        }
        i = i + 1;
    }
    proof {
        assert(views_of(v@).take(v@.len() as int) =~= views_of(v@));
    }
    r
}

/// Sorts a list of module names into the scheduler's deterministic order:
/// the result is ordered by `name_le` and holds the same names.
pub fn sort_names(names: &mut Vec<Name>)
    ensures
        sorted_by(final(names)@, name_order()),
        views_of(final(names)@).to_multiset() == views_of(old(names)@).to_multiset(),
{
    let mut out: Vec<Name> = Vec::new();
    let mut i: usize = 0;
    proof {
        assert(views_of(out@) =~= views_of(names@.subrange(0, 0)));
    }
    while i < names.len()
        invariant
            i <= names.len(),
            sorted_by(out@, name_order()),
            views_of(out@).to_multiset() == views_of(names@.subrange(0, i as int)).to_multiset(),
        decreases names.len() - i,
    {
        let x = names[i].clone();
        proof {
            broadcast use vstd::seq_lib::group_to_multiset_ensures;

            assert(views_of(names@.subrange(0, i as int + 1)) =~= views_of(
                names@.subrange(0, i as int),
            ).push(names@[i as int]@));
        }
        insert_sorted(&mut out, x);
        i = i + 1;
    }
    proof {
        assert(names@.subrange(0, i as int) =~= names@);
        assert(views_of(names@.subrange(0, i as int)) =~= views_of(names@));
    }
    *names = out;
}

/// Inserts one name into an already sorted list, keeping it sorted.
fn insert_sorted(out: &mut Vec<Name>, x: Name)
    requires
        sorted_by(old(out)@, name_order()),
    ensures
        sorted_by(final(out)@, name_order()),
        views_of(final(out)@).to_multiset() == views_of(old(out)@).to_multiset().insert(x@),
{
    let mut k: usize = 0;
    while k < out.len() && out[k].le(&x)
        invariant
            k <= out@.len(),
            sorted_by(out@, name_order()),
            out@ == old(out)@,
            forall|j: int| 0 <= j < k ==> name_le(#[trigger] out@[j]@, x@),
        decreases out@.len() - k,
    {
        k = k + 1;
    }
    proof {
        if k < out@.len() {
            lemma_name_le_total(out@[k as int]@, x@);
            assert(name_le(x@, out@[k as int]@));
        }
    }
    let ghost pre = out@;
    let ghost kk = k as int;
    out.insert(k, x);
    proof {
        assert forall|i: int, j: int| 0 <= i < j < out@.len() implies name_order()(
            out@[i],
            out@[j],
        ) by {
            if i < kk && j == kk {
                assert(out@[i] == pre[i]);
                assert(name_le(pre[i]@, x@));
            } else if i == kk && j > kk {
                assert(out@[j] == pre[j - 1]);
                if j - 1 > kk {
                    assert(name_order()(pre[kk], pre[j - 1]));
                    lemma_name_le_transitive(x@, pre[kk]@, pre[j - 1]@);
                } else {
                }
            } else if i < kk && j > kk {
                assert(out@[i] == pre[i]);
                assert(out@[j] == pre[j - 1]);
                if i < j - 1 {
                    assert(name_order()(pre[i], pre[j - 1]));
                } else {
                    lemma_name_le_transitive(pre[i]@, x@, pre[kk]@);
                }
            } else if i < kk && j < kk {
                assert(out@[i] == pre[i]);
                assert(out@[j] == pre[j]);
            } else if i > kk && j > kk {
                assert(out@[i] == pre[i - 1]);
                assert(out@[j] == pre[j - 1]);
            }
        }
        assert(views_of(out@) =~= views_of(pre.subrange(0, kk)).push(x@).add(
            views_of(pre.subrange(kk, pre.len() as int)),
        ));
        lemma_multiset_insert_middle(views_of(pre), x@, kk);
        assert(views_of(pre).subrange(0, kk) =~= views_of(pre.subrange(0, kk)));
        assert(views_of(pre).subrange(kk, views_of(pre).len() as int) =~= views_of(
            pre.subrange(kk, pre.len() as int),
        ));
    }
}

/// Determinism of the schedule: two sorted name lists over the same names
/// are the same list.  With the scheduler processing names in sorted order
/// and every later step a function of that order, a fixed module set gives
/// one fixed schedule, however the names were gathered.
pub proof fn lemma_sorted_names_unique(a: Seq<Name>, b: Seq<Name>)
    requires
        sorted_by(a, name_order()),
        sorted_by(b, name_order()),
        views_of(a).to_multiset() == views_of(b).to_multiset(),
    ensures
        views_of(a) == views_of(b),
    decreases a.len(),
{
    broadcast use vstd::seq_lib::group_to_multiset_ensures;

    if a.len() == 0 {
        assert(views_of(a).to_multiset().len() == 0);
        assert(views_of(b).len() == 0);
        assert(views_of(a) =~= views_of(b));
    } else {
        assert(views_of(a).to_multiset().len() == views_of(a).len());
        assert(views_of(b).len() > 0);
        assert(b.len() > 0);
        let av0 = views_of(a)[0];
        let bv0 = views_of(b)[0];
        assert(views_of(a).contains(av0));
        assert(views_of(a).to_multiset().count(av0) > 0);
        assert(views_of(b).to_multiset().count(av0) > 0);
        assert(views_of(b).contains(av0));
        let ka = choose|k: int| 0 <= k < views_of(b).len() && views_of(b)[k] == av0;
        assert(views_of(b)[ka] == b[ka]@);
        assert(views_of(b)[0] == b[0]@);
        if ka > 0 {
            assert(name_order()(b[0], b[ka]));
            assert(name_le(b[0]@, b[ka]@));
        } else {
            lemma_name_le_total(bv0, av0);
        }
        assert(name_le(bv0, av0));
        assert(views_of(b).contains(bv0));
        assert(views_of(b).to_multiset().count(bv0) > 0);
        assert(views_of(a).to_multiset().count(bv0) > 0);
        assert(views_of(a).contains(bv0));
        let kb = choose|k: int| 0 <= k < views_of(a).len() && views_of(a)[k] == bv0;
        assert(views_of(a)[kb] == a[kb]@);
        assert(views_of(a)[0] == a[0]@);
        if kb > 0 {
            assert(name_order()(a[0], a[kb]));
            assert(name_le(a[0]@, a[kb]@));
        } else {
            lemma_name_le_total(av0, bv0);
        }
        assert(name_le(av0, bv0));
        lemma_name_le_antisymmetric(av0, bv0);
        assert(av0 == bv0);
        let ta = a.skip(1);
        let tb = b.skip(1);
        assert(views_of(ta) =~= views_of(a).remove(0));
        assert(views_of(tb) =~= views_of(b).remove(0));
        assert(views_of(a).remove(0).to_multiset() == views_of(a).to_multiset().remove(av0));
        assert(views_of(b).remove(0).to_multiset() == views_of(b).to_multiset().remove(bv0));
        assert(sorted_by(ta, name_order())) by {
            assert forall|i: int, j: int|
                0 <= i < j < ta.len() implies name_order()(ta[i], ta[j]) by {
                assert(ta[i] == a[i + 1]);
                assert(ta[j] == a[j + 1]);
                assert(name_order()(a[i + 1], a[j + 1]));
            }
        }
        assert(sorted_by(tb, name_order())) by {
            assert forall|i: int, j: int|
                0 <= i < j < tb.len() implies name_order()(tb[i], tb[j]) by {
                assert(tb[i] == b[i + 1]);
                assert(tb[j] == b[j + 1]);
                assert(name_order()(b[i + 1], b[j + 1]));
            }
        }
        lemma_sorted_names_unique(ta, tb);
        assert(views_of(a).len() == views_of(b).len());
        assert forall|i: int| 0 <= i < views_of(a).len() implies views_of(a)[i] == views_of(
            b,
        )[i] by {
            if i > 0 {
                assert(views_of(a).remove(0)[i - 1] == views_of(a)[i]);
                assert(views_of(b).remove(0)[i - 1] == views_of(b)[i]);
                assert(views_of(ta)[i - 1] == views_of(tb)[i - 1]);
            }
        }
        assert(views_of(a) =~= views_of(b));
    }
}

proof fn lemma_multiset_insert_middle<A>(pre: Seq<A>, x: A, k: int)
    requires
        0 <= k <= pre.len(),
    ensures
        pre.subrange(0, k).push(x).add(
            pre.subrange(k, pre.len() as int),
        ).to_multiset() == pre.to_multiset().insert(x),
{
    broadcast use vstd::seq_lib::group_to_multiset_ensures;

    let left = pre.subrange(0, k);
    let right = pre.subrange(k, pre.len() as int);
    assert(left.push(x) =~= left.add(seq![x]));
    vstd::seq_lib::lemma_multiset_commutative(left, seq![x]);
    vstd::seq_lib::lemma_multiset_commutative(left.add(seq![x]), right);
    vstd::seq_lib::lemma_multiset_commutative(left, right);
    assert(left.add(right) =~= pre);
    assert(seq![x].to_multiset() =~= Multiset::<A>::empty().insert(x));
    assert(left.push(x).add(right).to_multiset() =~= pre.to_multiset().insert(x));
}

} // verus!
