//! Byte helpers and query string parsing.

use vstd::prelude::*;

use crate::context::{MaybeUtf8, Parameters};

verus! {

/// The pieces of `s` between the occurrences of `sep`, as `<[u8]>::split`
/// yields them: there is always at least one piece.
pub open spec fn split_bytes(s: Seq<u8>, sep: u8) -> Seq<Seq<u8>>
    decreases s.len(),
{
    if s.len() == 0 {
        seq![Seq::<u8>::empty()]
    } else {
        let rest = split_bytes(s.drop_last(), sep);
        if s.last() == sep {
            rest.push(Seq::<u8>::empty())
        } else {
            rest.update(rest.len() - 1, rest.last().push(s.last()))
        }
    }
}

/// There is always at least one piece.
pub proof fn lemma_split_bytes_nonempty(s: Seq<u8>, sep: u8)
    ensures
        split_bytes(s, sep).len() >= 1,
    decreases s.len(),
{
    if s.len() > 0 {
        lemma_split_bytes_nonempty(s.drop_last(), sep);
    }
}

/// A slice without the separator is a single piece.
pub proof fn lemma_split_bytes_no_sep(s: Seq<u8>, sep: u8)
    requires
        !s.contains(sep),
    ensures
        split_bytes(s, sep) == seq![s],
    decreases s.len(),
{
    if s.len() > 0 {
        assert(!s.drop_last().contains(sep)) by {
            if s.drop_last().contains(sep) {
                let i = choose|i: int| 0 <= i < s.drop_last().len() && s.drop_last()[i] == sep;
                assert(s[i] == sep);
            }
        }
        lemma_split_bytes_no_sep(s.drop_last(), sep);
        assert(s.last() != sep) by {
            assert(s[s.len() - 1] == s.last());
        }
        assert(s.drop_last().push(s.last()) =~= s);
        assert(split_bytes(s, sep) =~= seq![s]);
    } else {
        assert(s =~= Seq::<u8>::empty());
    }
}

/// Compare two byte slices.
pub fn bytes_eq(a: &[u8], b: &[u8]) -> (r: bool)
    ensures
        r == (a@ == b@),
{
    if a.len() != b.len() {
        return false;
    }
    let mut i: usize = 0;
    while i < a.len()
        invariant
            a@.len() == b@.len(),
            0 <= i <= a@.len(),
            forall|j: int| 0 <= j < i ==> a@[j] == b@[j],
        decreases a@.len() - i,
    {
        if a[i] != b[i] {
            return false;
        }
        i = i + 1;
    }
    assert(a@ =~= b@);
    true
}

/// Split a byte slice on a separator byte, copying the pieces.
pub fn split_on(s: &[u8], sep: u8) -> (r: Vec<Vec<u8>>)
    ensures
        r@.map_values(|p: Vec<u8>| p@) == split_bytes(s@, sep),
{
    let mut pieces: Vec<Vec<u8>> = Vec::new();
    let mut current: Vec<u8> = Vec::new();
    let mut i: usize = 0;
    proof {
        assert(s@.take(0) =~= Seq::<u8>::empty());
        assert(pieces@.map_values(|p: Vec<u8>| p@).push(current@) =~= split_bytes(s@.take(0), sep));
    }
    while i < s.len()
        invariant
            0 <= i <= s@.len(),
            pieces@.map_values(|p: Vec<u8>| p@).push(current@) == split_bytes(s@.take(i as int), sep),
        decreases s@.len() - i,
    {
        let ghost before = s@.take(i as int);
        let b = s[i];
        proof {
            assert(s@.take(i + 1).drop_last() =~= before);
            assert(s@.take(i + 1).last() == b);
            lemma_split_bytes_nonempty(before, sep);
        }
        if b == sep {
            let done = current;
            pieces.push(done);
            current = Vec::new();
            proof {
                assert(pieces@.map_values(|p: Vec<u8>| p@).push(current@) =~= split_bytes(
                    before,
                    sep,
                ).push(Seq::<u8>::empty()));
            }
        } else {
            current.push(b);
            proof {
                let prev = split_bytes(before, sep);
                assert(pieces@.map_values(|p: Vec<u8>| p@).push(current@) =~= prev.update(
                    prev.len() - 1,
                    prev.last().push(b),
                ));
            }
        }
        i = i + 1;
    }
    pieces.push(current);
    proof {
        assert(s@.take(s@.len() as int) =~= s@);
    }
    pieces
}

/// The value of a hexadecimal digit, in either case.
pub open spec fn hex_value(b: u8) -> Option<u8> {
    if 48u8 <= b <= 57u8 {
        Some((b - 48) as u8)
    } else if 97u8 <= b <= 102u8 {
        Some((b - 87) as u8)
    } else if 65u8 <= b <= 70u8 {
        Some((b - 55) as u8)
    } else {
        None
    }
}

/// Percent-decoding: every `%` followed by two hexadecimal digits stands for
/// the byte they spell; every other byte, a `%` without two digits after it
/// included, stands for itself.
pub open spec fn percent_decoded(s: Seq<u8>) -> Seq<u8>
    decreases s.len(),
{
    if s.len() == 0 {
        Seq::empty()
    } else if s[0] == 37u8 && s.len() >= 3 && hex_value(s[1]) is Some && hex_value(s[2]) is Some {
        seq![(hex_value(s[1])->0 * 16 + hex_value(s[2])->0) as u8] + percent_decoded(s.skip(3))
    } else {
        seq![s[0]] + percent_decoded(s.skip(1))
    }
}

/// Percent-decode bytes with `url::percent_encoding::percent_decode`.
///
/// The crate's decoder replaces each `%` that is followed by two
/// hexadecimal digits (`0-9`, `a-f`, `A-F`) with the byte they spell, and
/// passes every other byte through; the contract states exactly that.
#[verifier::external_body]
pub(crate) fn percent_decode_bytes(input: &[u8]) -> (r: Vec<u8>)
    ensures
        r@ == percent_decoded(input@),
{
    url::percent_encoding::percent_decode(input).collect()
}

/// A `+` stands for a space in a query string.
pub open spec fn plus_as_space(s: Seq<u8>) -> Seq<u8> {
    s.map_values(|b: u8| if b == 43u8 { 32u8 } else { b })
}

/// The name and value of one `name=value` part of a query string, both
/// percent-decoded. A part without `=` has an empty value, and anything
/// after a second `=` is ignored.
pub open spec fn query_entry(part: Seq<u8>) -> (Seq<u8>, Seq<u8>) {
    let pieces = split_bytes(part, 61u8);
    (
        percent_decoded(pieces[0]),
        if pieces.len() > 1 { percent_decoded(pieces[1]) } else { Seq::empty() },
    )
}

/// The parameters of the first `n` parts of a query string: a later part
/// replaces an earlier one with the same name.
pub open spec fn query_entries(parts: Seq<Seq<u8>>, n: int) -> Map<Seq<u8>, Seq<u8>>
    decreases n,
{
    if n <= 0 {
        Map::empty()
    } else {
        query_entries(parts, n - 1).insert(query_entry(parts[n - 1]).0, query_entry(parts[n - 1]).1)
    }
}

/// The parameters of a query string: `+` is read as a space, the parts are
/// separated by `&`, and each part is a name and a value.
pub open spec fn query_parameters(source: Seq<u8>) -> Map<Seq<u8>, Seq<u8>> {
    let parts = split_bytes(plus_as_space(source), 38u8);
    query_entries(parts, parts.len() as int)
}

/// Parse the parameters of a query string, such as `a=1&b=2`.
pub fn parse_parameters(source: &[u8]) -> (r: Parameters)
    ensures
        r.wf(),
        r.values_inv(),
        r@ == query_parameters(source@),
{
    let mut replaced: Vec<u8> = Vec::new();
    let mut i: usize = 0;
    while i < source.len()
        invariant
            0 <= i <= source@.len(),
            replaced@ == plus_as_space(source@.take(i as int)),
        decreases source@.len() - i,
    {
        let b = source[i];
        replaced.push(if b == 43u8 { 32u8 } else { b });
        proof {
            assert(plus_as_space(source@.take(i + 1)) =~= plus_as_space(source@.take(i as int)).push(
                if b == 43u8 { 32u8 } else { b },
            ));
        }
        i = i + 1;
    }
    proof {
        assert(source@.take(source@.len() as int) =~= source@);
    }
    let parts = split_on(replaced.as_slice(), 38u8);
    let ghost parts_view = parts@.map_values(|p: Vec<u8>| p@);
    let mut parameters = Parameters::new();
    let mut j: usize = 0;
    while j < parts.len()
        invariant
            0 <= j <= parts@.len(),
            parts_view == parts@.map_values(|p: Vec<u8>| p@),
            parts_view == split_bytes(plus_as_space(source@), 38u8),
            parameters.wf(),
            parameters.values_inv(),
            parameters@ == query_entries(parts_view, j as int),
        decreases parts@.len() - j,
    {
        let pieces = split_on(parts[j].as_slice(), 61u8);
        proof {
            lemma_split_bytes_nonempty(parts@[j as int]@, 61u8);
            assert(parts_view[j as int] == parts@[j as int]@);
        }
        let name = percent_decode_bytes(pieces[0].as_slice());
        let value = if pieces.len() > 1 {
            percent_decode_bytes(pieces[1].as_slice())
        } else {
            Vec::new()
        };
        proof {
            let e = query_entry(parts_view[j as int]);
            assert(name@ == e.0);
            assert(value@ == e.1);
        }
        parameters.insert(MaybeUtf8::from_bytes(name), MaybeUtf8::from_bytes(value));
        j = j + 1;
    }
    parameters
}

/// Extension trait for byte vectors.
pub trait BytesExt {
    /// Copy a number of bytes to the vector.
    fn push_bytes(&mut self, bytes: &[u8]);
}

impl BytesExt for Vec<u8> {
    fn push_bytes(&mut self, bytes: &[u8])
        ensures
            final(self)@ == old(self)@ + bytes@,
    {
        let ghost start = self@;
        let mut i: usize = 0;
        while i < bytes.len()
            invariant
                0 <= i <= bytes@.len(),
                self@ == start + bytes@.take(i as int),
            decreases bytes@.len() - i,
        {
            self.push(bytes[i]);
            proof {
                assert(start + bytes@.take(i + 1) =~= (start + bytes@.take(i as int)).push(bytes@[i as int]));
            }
            i = i + 1;
        }
        proof {
            assert(bytes@.take(bytes@.len() as int) =~= bytes@);
        }
    }
}

/// Splitting at a separator between two parts splits each part on its own.
proof fn lemma_split_bytes_concat(a: Seq<u8>, b: Seq<u8>, sep: u8)
    ensures
        split_bytes(a + seq![sep] + b, sep) == split_bytes(a, sep) + split_bytes(b, sep),
    decreases b.len(),
{
    let s = a + seq![sep] + b;
    lemma_split_bytes_nonempty(a, sep);
    if b.len() == 0 {
        assert(s.drop_last() =~= a);
        assert(s.last() == sep);
        assert(split_bytes(b, sep) =~= seq![Seq::<u8>::empty()]);
        assert(split_bytes(a, sep).push(Seq::<u8>::empty()) =~= split_bytes(a, sep) + split_bytes(b, sep));
    } else {
        let bd = b.drop_last();
        assert(s.drop_last() =~= a + seq![sep] + bd);
        assert(s.last() == b.last());
        assert(b.drop_last() == bd);
        lemma_split_bytes_concat(a, bd, sep);
        lemma_split_bytes_nonempty(bd, sep);
        let x = split_bytes(a, sep);
        let y = split_bytes(bd, sep);
        if b.last() == sep {
            assert((x + y).push(Seq::<u8>::empty()) =~= x + y.push(Seq::<u8>::empty()));
        } else {
            assert((x + y).update((x + y).len() - 1, (x + y).last().push(b.last())) =~= x + y.update(
                y.len() - 1,
                y.last().push(b.last()),
            ));
        }
    }
}

/// A query string made of one `name=value` part, neither of which holds
/// `&`, `=` or `+`, gives exactly one parameter: the percent-decoded name,
/// with the percent-decoded value.
pub proof fn law_query_single_part(name: Seq<u8>, value: Seq<u8>)
    requires
        !name.contains(38u8),
        !name.contains(61u8),
        !name.contains(43u8),
        !value.contains(38u8),
        !value.contains(61u8),
        !value.contains(43u8),
    ensures
        query_parameters(name + seq![61u8] + value)
            == Map::<Seq<u8>, Seq<u8>>::empty().insert(percent_decoded(name), percent_decoded(value)),
        query_parameters(name + seq![61u8] + value).dom() == Set::<Seq<u8>>::empty().insert(percent_decoded(name)),
{
    let q = name + seq![61u8] + value;
    assert(plus_as_space(q) =~= q) by {
        assert forall|i: int| 0 <= i < q.len() implies q[i] != 43u8 by {
            if i < name.len() {
                assert(q[i] == name[i]);
            } else if i > name.len() {
                assert(q[i] == value[i - name.len() - 1]);
            }
        }
    }
    assert(!q.contains(38u8)) by {
        if q.contains(38u8) {
            let i = choose|i: int| 0 <= i < q.len() && q[i] == 38u8;
            if i < name.len() {
                assert(name[i] == 38u8);
            } else if i > name.len() {
                assert(value[i - name.len() - 1] == 38u8);
            }
        }
    }
    lemma_split_bytes_no_sep(q, 38u8);
    let parts = split_bytes(plus_as_space(q), 38u8);
    assert(parts == seq![q]);
    lemma_split_bytes_concat(name, value, 61u8);
    lemma_split_bytes_no_sep(name, 61u8);
    lemma_split_bytes_no_sep(value, 61u8);
    assert(split_bytes(q, 61u8) =~= seq![name, value]);
    assert(query_entries(parts, 0) == Map::<Seq<u8>, Seq<u8>>::empty());
    assert(query_parameters(q) =~= Map::<Seq<u8>, Seq<u8>>::empty().insert(percent_decoded(name), percent_decoded(value)));
}

/// A `+` in a query string reads as a space: the parameters are those of
/// the same query with a space in its place.
pub proof fn law_query_plus_is_space(a: Seq<u8>, b: Seq<u8>)
    ensures
        query_parameters(a + seq![43u8] + b) == query_parameters(a + seq![32u8] + b),
{
    let x = a + seq![43u8] + b;
    let y = a + seq![32u8] + b;
    assert(plus_as_space(x) =~= plus_as_space(y)) by {
        assert forall|i: int| 0 <= i < x.len() implies plus_as_space(x)[i] == plus_as_space(y)[i] by {
            if i != a.len() {
                assert(x[i] == y[i]);
            }
        }
    }
}

} // verus!
