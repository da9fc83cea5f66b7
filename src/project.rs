use vstd::prelude::*;

use crate::graph::OutputRef;

verus! {

/// ASCII space, which separates the tokens of a project line.
pub const SPACE: u8 = 0x20;

/// ASCII full stop, which separates node and output in an input reference.
pub const DOT: u8 = 0x2E;

pub open spec fn is_digit(b: u8) -> bool {
    0x30 <= b <= 0x39
}

pub open spec fn all_digits(s: Seq<u8>) -> bool {
    forall|i: int| 0 <= i < s.len() ==> is_digit(#[trigger] s[i])
}

/// The number that a string of decimal digits writes.
pub open spec fn digits_value(s: Seq<u8>) -> nat
    decreases s.len(),
{
    if s.len() == 0 {
        0
    } else {
        digits_value(s.drop_last()) * 10 + (s.last() - 0x30) as nat
    }
}

/// The number a token writes: one or more digits, not above `usize::MAX`.
pub open spec fn number_of(s: Seq<u8>) -> Option<usize> {
    if s.len() > 0 && all_digits(s) && digits_value(s) <= usize::MAX {
        Some(digits_value(s) as usize)
    } else {
        None
    }
}

/// The decimal digits of `n`, without leading zeros.
pub open spec fn decimal(n: nat) -> Seq<u8>
    decreases n,
{
    if n < 10 {
        seq![(0x30 + n) as u8]
    } else {
        decimal(n / 10).push((0x30 + n % 10) as u8)
    }
}

/// The pieces of `s` between separators, in order; `k` separators give
/// `k + 1` pieces, some possibly empty.
pub open spec fn split_on(s: Seq<u8>, sep: u8) -> Seq<Seq<u8>>
    decreases s.len(),
{
    if s.len() == 0 {
        seq![Seq::empty()]
    } else {
        let p = split_on(s.drop_last(), sep);
        if s.last() == sep {
            p.push(Seq::empty())
        } else {
            p.update(p.len() - 1, p.last().push(s.last()))
        }
    }
}

/// An input reference written `<node>.<output>`.
pub open spec fn ref_of(tok: Seq<u8>) -> Option<OutputRef> {
    let parts = split_on(tok, DOT);
    if parts.len() == 2 && number_of(parts[0]).is_some() && number_of(parts[1]).is_some() {
        Some(OutputRef { node: number_of(parts[0]).unwrap(), output: number_of(parts[1]).unwrap() })
    } else {
        None
    }
}

/// The references the tokens write, if every token writes one.
pub open spec fn refs_of(toks: Seq<Seq<u8>>) -> Option<Seq<OutputRef>>
    decreases toks.len(),
{
    if toks.len() == 0 {
        Some(Seq::empty())
    } else {
        match (refs_of(toks.drop_last()), ref_of(toks.last())) {
            (Some(rs), Some(r)) => Some(rs.push(r)),
            _ => None,
        }
    }
}

/// The bytes `in`.
pub open spec fn in_keyword() -> Seq<u8> {
    seq![0x69u8, 0x6Eu8]
}

/// What an `in` line of a project file lists: nothing for a bare `in`, else
/// the space-separated references after `in `.
pub open spec fn in_line_refs(line: Seq<u8>) -> Option<Seq<OutputRef>> {
    if line == in_keyword() {
        Some(Seq::empty())
    } else if line.len() >= 3 && line.subrange(0, 3) == in_keyword().push(SPACE) {
        refs_of(split_on(line.subrange(3, line.len() as int), SPACE))
    } else {
        None
    }
}

/// The token `<node>.<output>`.
pub open spec fn ref_token(r: OutputRef) -> Seq<u8> {
    decimal(r.node as nat).push(DOT) + decimal(r.output as nat)
}

/// The tokens of `refs` joined by single spaces.
pub open spec fn joined_tokens(refs: Seq<OutputRef>) -> Seq<u8>
    decreases refs.len(),
{
    if refs.len() <= 1 {
        if refs.len() == 0 {
            Seq::empty()
        } else {
            ref_token(refs[0])
        }
    } else {
        joined_tokens(refs.drop_last()).push(SPACE) + ref_token(refs.last())
    }
}

/// The `in` line that lists `refs`.
pub open spec fn in_line(refs: Seq<OutputRef>) -> Seq<u8> {
    if refs.len() == 0 {
        in_keyword()
    } else {
        in_keyword().push(SPACE) + joined_tokens(refs)
    }
}

pub proof fn lemma_decimal_digits(n: nat)
    ensures
        decimal(n).len() > 0,
        all_digits(decimal(n)),
        digits_value(decimal(n)) == n,
    decreases n,
{
    if n < 10 {
        assert(decimal(n).drop_last() =~= Seq::<u8>::empty());
        assert(((0x30 + n) as u8) as int == 0x30 + n);
        assert(decimal(n).last() == (0x30 + n) as u8);
        assert(digits_value(decimal(n)) == digits_value(decimal(n).drop_last()) * 10 + (decimal(
            n,
        ).last() - 0x30) as nat);
        assert(digits_value(Seq::<u8>::empty()) == 0);
    } else {
        lemma_decimal_digits(n / 10);
        let d = decimal(n);
        assert(d.drop_last() =~= decimal(n / 10));
        vstd::arithmetic::div_mod::lemma_fundamental_div_mod(n as int, 10);
        assert(((0x30 + n % 10) as u8) as int == 0x30 + n % 10);
        assert(d.last() == (0x30 + n % 10) as u8);
        assert(digits_value(d) == digits_value(decimal(n / 10)) * 10 + n % 10);
        let q = n / 10;
        let m = n % 10;
        assert(q * 10 + m == n) by (nonlinear_arith)
            requires
                n == 10 * q + m,
        ;
        assert(all_digits(d)) by {
            assert forall|i: int| 0 <= i < d.len() implies is_digit(#[trigger] d[i]) by {
                if i < d.len() - 1 {
                    assert(d[i] == decimal(n / 10)[i]);
                }
            }
        }
    }
}

proof fn lemma_split_len(s: Seq<u8>, sep: u8)
    ensures
        split_on(s, sep).len() >= 1,
    decreases s.len(),
{
    if s.len() > 0 {
        lemma_split_len(s.drop_last(), sep);
    }
}

/// A piece without separators splits into itself.
proof fn lemma_split_plain(s: Seq<u8>, sep: u8)
    requires
        forall|i: int| 0 <= i < s.len() ==> #[trigger] s[i] != sep,
    ensures
        split_on(s, sep) == seq![s],
    decreases s.len(),
{
    if s.len() > 0 {
        lemma_split_plain(s.drop_last(), sep);
        assert(s.last() != sep);
        assert(s.drop_last().push(s.last()) =~= s);
        assert(split_on(s, sep) =~= seq![s]);
    } else {
        assert(s =~= Seq::<u8>::empty());
        assert(split_on(s, sep) =~= seq![s]);
    }
}

/// Splitting `x`, a separator, then `y`, gives the pieces of `x` then those of `y`.
proof fn lemma_split_concat(x: Seq<u8>, y: Seq<u8>, sep: u8)
    ensures
        split_on(x.push(sep) + y, sep) == split_on(x, sep) + split_on(y, sep),
    decreases y.len(),
{
    lemma_split_len(x, sep);
    if y.len() == 0 {
        assert(x.push(sep) + y =~= x.push(sep));
        assert(x.push(sep).drop_last() =~= x);
        assert(split_on(x, sep).push(Seq::empty()) =~= split_on(x, sep) + seq![Seq::<u8>::empty()]);
    } else {
        let y0 = y.drop_last();
        lemma_split_concat(x, y0, sep);
        let s = x.push(sep) + y;
        assert(s.drop_last() =~= x.push(sep) + y0);
        assert(s.last() == y.last());
        lemma_split_len(y0, sep);
        let p = split_on(x, sep) + split_on(y0, sep);
        if y.last() == sep {
            assert(p.push(Seq::empty()) =~= split_on(x, sep) + split_on(y0, sep).push(Seq::empty()));
        } else {
            let q = split_on(y0, sep);
            assert(p.update(p.len() - 1, p.last().push(y.last())) =~= split_on(x, sep) + q.update(
                q.len() - 1,
                q.last().push(y.last()),
            ));
        }
    }
}

proof fn lemma_decimal_no_sep(n: nat, sep: u8)
    requires
        !is_digit(sep),
    ensures
        forall|i: int| 0 <= i < decimal(n).len() ==> #[trigger] decimal(n)[i] != sep,
{
    lemma_decimal_digits(n);
}

proof fn lemma_ref_token(r: OutputRef)
    ensures
        ref_of(ref_token(r)) == Some(r),
        forall|i: int| 0 <= i < ref_token(r).len() ==> #[trigger] ref_token(r)[i] != SPACE,
{
    let a = decimal(r.node as nat);
    let b = decimal(r.output as nat);
    lemma_decimal_digits(r.node as nat);
    lemma_decimal_digits(r.output as nat);
    lemma_decimal_no_sep(r.node as nat, DOT);
    lemma_decimal_no_sep(r.output as nat, DOT);
    lemma_split_concat(a, b, DOT);
    lemma_split_plain(a, DOT);
    lemma_split_plain(b, DOT);
    let parts = split_on(ref_token(r), DOT);
    assert(parts =~= seq![a, b]);
    let t = ref_token(r);
    assert forall|i: int| 0 <= i < t.len() implies #[trigger] t[i] != SPACE by {
        if i < a.len() {
            assert(t[i] == a[i]);
            assert(is_digit(a[i]));
        } else if i > a.len() {
            assert(t[i] == b[i - a.len() - 1]);
            assert(is_digit(b[i - a.len() - 1]));
        }
    }
}

proof fn lemma_joined_round_trip(refs: Seq<OutputRef>)
    requires
        refs.len() > 0,
    ensures
        refs_of(split_on(joined_tokens(refs), SPACE)) == Some(refs),
    decreases refs.len(),
{
    let last = refs.last();
    lemma_ref_token(last);
    if refs.len() == 1 {
        lemma_split_plain(ref_token(refs[0]), SPACE);
        let toks = seq![ref_token(refs[0])];
        assert(joined_tokens(refs) == ref_token(refs[0]));
        assert(split_on(joined_tokens(refs), SPACE) == toks);
        assert(toks.drop_last() =~= Seq::<Seq<u8>>::empty());
        assert(toks.last() == ref_token(refs[0]));
        assert(refs.last() == refs[0]);
        assert(refs_of(Seq::<Seq<u8>>::empty()) == Some(Seq::<OutputRef>::empty()));
        assert(Seq::<OutputRef>::empty().push(refs[0]) =~= refs);
    } else {
        let pre = refs.drop_last();
        lemma_joined_round_trip(pre);
        lemma_split_concat(joined_tokens(pre), ref_token(last), SPACE);
        lemma_split_plain(ref_token(last), SPACE);
        let toks = split_on(joined_tokens(pre), SPACE) + seq![ref_token(last)];
        assert(joined_tokens(refs) == joined_tokens(pre).push(SPACE) + ref_token(last));
        assert(split_on(joined_tokens(refs), SPACE) == toks);
        assert(toks.drop_last() =~= split_on(joined_tokens(pre), SPACE));
        assert(toks.last() == ref_token(last));
        assert(pre.push(last) =~= refs);
    }
}

/// An `in` line written for some references reads back as those references.
pub proof fn lemma_in_line_round_trip(refs: Seq<OutputRef>)
    ensures
        in_line_refs(in_line(refs)) == Some(refs),
{
    if refs.len() == 0 {
        assert(refs =~= Seq::<OutputRef>::empty());
    } else {
        let line = in_line(refs);
        let head = in_keyword().push(SPACE);
        assert(line.subrange(0, 3) =~= head);
        assert(line.subrange(3, line.len() as int) =~= joined_tokens(refs));
        assert(line != in_keyword()) by {
            assert(line.len() != 2) by {
                assert(line.len() >= 3);
            }
        }
        lemma_joined_round_trip(refs);
    }
}

/// Appends the decimal digits of `n`.
pub fn write_decimal(n: usize, out: &mut Vec<u8>)
    ensures
        final(out)@ == old(out)@ + decimal(n as nat),
    decreases n,
{
    if n >= 10 {
        write_decimal(n / 10, out);
    }
    out.push(0x30u8 + (n % 10) as u8);
    proof {
        if n >= 10 {
            assert(old(out)@ + decimal(n as nat) =~= (old(out)@ + decimal((n / 10) as nat)).push(
                (0x30 + n % 10) as u8,
            ));
        } else {
            assert(old(out)@ + decimal(n as nat) =~= old(out)@.push((0x30 + n % 10) as u8));
        }
    }
}

/// Reads a decimal number: one or more digits whose value fits `usize`.
pub fn parse_number(s: &[u8]) -> (r: Option<usize>)
    ensures
        r == number_of(s@),
{
    if s.len() == 0 {
        return None;
    }
    let mut acc: usize = 0;
    let mut i: usize = 0;
    while i < s.len()
        invariant
            i <= s@.len(),
            s@.len() > 0,
            all_digits(s@.subrange(0, i as int)),
            acc as nat == digits_value(s@.subrange(0, i as int)),
        decreases s@.len() - i,
    {
        let b = s[i];
        proof {
            assert(s@.subrange(0, i as int + 1).drop_last() =~= s@.subrange(0, i as int));
        }
        if b < 0x30u8 || b > 0x39u8 {
            proof {
                assert(!is_digit(s@[i as int]));
                assert(!all_digits(s@));
            }
            return None;
        }
        let d = (b - 0x30u8) as usize;
        if acc > (usize::MAX - d) / 10 {
            proof {
                assert(acc * 10 + d > usize::MAX) by (nonlinear_arith)
                    requires
                        acc > (usize::MAX - d) / 10,
                        d <= 9,
                ;
                lemma_digits_grow(s@, i as int + 1);
            }
            return None;
        }
        acc = acc * 10 + d;
        proof {
            let p = s@.subrange(0, i as int + 1);
            assert forall|j: int| 0 <= j < p.len() implies is_digit(#[trigger] p[j]) by {
                if j < i {
                    assert(p[j] == s@.subrange(0, i as int)[j]);
                }
            }
        }
        i += 1;
    }
    proof {
        assert(s@.subrange(0, i as int) =~= s@);
    }
    Some(acc)
}

/// The value of a digit string is at least that of any of its prefixes.
proof fn lemma_digits_grow(s: Seq<u8>, k: int)
    requires
        0 <= k <= s.len(),
    ensures
        all_digits(s) ==> digits_value(s) >= digits_value(s.subrange(0, k)),
    decreases s.len() - k,
{
    if k < s.len() && all_digits(s) {
        lemma_digits_grow(s, k + 1);
        let p = s.subrange(0, k + 1);
        assert(p.drop_last() =~= s.subrange(0, k));
        assert(is_digit(s[k]));
        let x = digits_value(s.subrange(0, k));
        assert(x * 10 + (p.last() - 0x30) as nat >= x) by (nonlinear_arith);
    } else if k == s.len() {
        assert(s.subrange(0, k) =~= s);
    }
}

/// Splits `s` at every separator byte.
pub fn split_bytes(s: &[u8], sep: u8) -> (r: Vec<Vec<u8>>)
    ensures
        r@.map_values(|t: Vec<u8>| t@) == split_on(s@, sep),
{
    let mut pieces: Vec<Vec<u8>> = Vec::new();
    let mut cur: Vec<u8> = Vec::new();
    let mut i: usize = 0;
    while i < s.len()
        invariant
            i <= s@.len(),
            pieces@.map_values(|t: Vec<u8>| t@).push(cur@) == split_on(s@.subrange(0, i as int), sep),
        decreases s@.len() - i,
    {
        proof {
            assert(s@.subrange(0, i as int + 1).drop_last() =~= s@.subrange(0, i as int));
            lemma_split_len(s@.subrange(0, i as int), sep);
        }
        let ghost before = pieces@.map_values(|t: Vec<u8>| t@);
        let ghost c0 = cur@;
        if s[i] == sep {
            let mut done: Vec<u8> = Vec::new();
            std::mem::swap(&mut done, &mut cur);
            pieces.push(done);
            proof {
                assert(pieces@.map_values(|t: Vec<u8>| t@) =~= before.push(c0));
            }
        } else {
            cur.push(s[i]);
            proof {
                assert(pieces@.map_values(|t: Vec<u8>| t@) =~= before);
            }
        }
        proof {
            let p = split_on(s@.subrange(0, i as int), sep);
            assert(pieces@.map_values(|t: Vec<u8>| t@).push(cur@) =~= split_on(s@.subrange(0, i as int + 1), sep));
        }
        i += 1;
    }
    proof {
        assert(s@.subrange(0, i as int) =~= s@);
    }
    pieces.push(cur);
    proof {
        let v = pieces@.map_values(|t: Vec<u8>| t@);
        assert(v =~= split_on(s@, sep));
    }
    pieces
}

/// Reads an input reference `<node>.<output>`.
pub fn parse_output_ref(tok: &[u8]) -> (r: Option<OutputRef>)
    ensures
        r == ref_of(tok@),
{
    let parts = split_bytes(tok, DOT);
    proof {
        assert(parts@.map_values(|t: Vec<u8>| t@).len() == parts@.len());
    }
    if parts.len() != 2 {
        return None;
    }
    proof {
        assert(parts@[0]@ == split_on(tok@, DOT)[0]);
        assert(parts@[1]@ == split_on(tok@, DOT)[1]);
    }
    let node = parse_number(parts[0].as_slice());
    let output = parse_number(parts[1].as_slice());
    match (node, output) {
        (Some(node), Some(output)) => Some(OutputRef { node, output }),
        _ => None,
    }
}

/// Reads the references an `in` line lists; `None` for a line that is not
/// one or that holds a malformed reference.
pub fn parse_in_line(line: &[u8]) -> (r: Option<Vec<OutputRef>>)
    ensures
        match r {
            Some(v) => in_line_refs(line@) == Some(v@),
            None => in_line_refs(line@).is_none(),
        },
{
    if line.len() == 2 && line[0] == 0x69u8 && line[1] == 0x6Eu8 {
        proof {
            assert(line@ =~= in_keyword());
        }
        return Some(Vec::new());
    }
    proof {
        assert(line@ != in_keyword());
    }
    if line.len() < 3 || line[0] != 0x69u8 || line[1] != 0x6Eu8 || line[2] != SPACE {
        proof {
            if line@.len() >= 3 {
                assert(line@.subrange(0, 3)[0] == line@[0]);
                assert(line@.subrange(0, 3)[1] == line@[1]);
                assert(line@.subrange(0, 3)[2] == line@[2]);
                assert(in_keyword().push(SPACE)[2] == SPACE);
            }
        }
        return None;
    }
    proof {
        assert(line@.subrange(0, 3) =~= in_keyword().push(SPACE));
    }
    let mut rest: Vec<u8> = Vec::new();
    let mut i: usize = 3;
    while i < line.len()
        invariant
            3 <= i <= line@.len(),
            rest@ == line@.subrange(3, i as int),
        decreases line@.len() - i,
    {
        rest.push(line[i]);
        proof {
            assert(rest@ =~= line@.subrange(3, i as int + 1));
        }
        i += 1;
    }
    proof {
        assert(rest@ =~= line@.subrange(3, line@.len() as int));
    }
    let toks = split_bytes(rest.as_slice(), SPACE);
    let ghost tv = toks@.map_values(|t: Vec<u8>| t@);
    proof {
        assert(tv == split_on(line@.subrange(3, line@.len() as int), SPACE));
    }
    let mut refs: Vec<OutputRef> = Vec::new();
    let mut k: usize = 0;
    while k < toks.len()
        invariant
            tv == toks@.map_values(|t: Vec<u8>| t@),
            tv == split_on(line@.subrange(3, line@.len() as int), SPACE),
            line@.subrange(0, 3) == in_keyword().push(SPACE),
            line@ != in_keyword(),
            k <= toks@.len(),
            refs_of(tv.subrange(0, k as int)) == Some(refs@),
        decreases toks@.len() - k,
    {
        proof {
            assert(tv.subrange(0, k as int + 1).drop_last() =~= tv.subrange(0, k as int));
            assert(tv.subrange(0, k as int + 1).last() == toks@[k as int]@);
        }
        match parse_output_ref(toks[k].as_slice()) {
            Some(r) => {
                refs.push(r);
            },
            None => {
                proof {
                    lemma_refs_prefix_fails(tv, k as int + 1);
                }
                return None;
            },
        }
        k += 1;
    }
    proof {
        assert(tv.subrange(0, k as int) =~= tv);
    }
    Some(refs)
}

/// Once a prefix of the tokens fails to read, so does the whole list.
proof fn lemma_refs_prefix_fails(toks: Seq<Seq<u8>>, k: int)
    requires
        0 <= k <= toks.len(),
        refs_of(toks.subrange(0, k)).is_none(),
    ensures
        refs_of(toks).is_none(),
    decreases toks.len() - k,
{
    if k < toks.len() {
        assert(toks.subrange(0, k + 1).drop_last() =~= toks.subrange(0, k));
        lemma_refs_prefix_fails(toks, k + 1);
    } else {
        assert(toks.subrange(0, k) =~= toks);
    }
}

/// Writes the `in` line that lists `refs`.
pub fn format_in_line(refs: &Vec<OutputRef>) -> (r: Vec<u8>)
    ensures
        r@ == in_line(refs@),
{
    let mut out: Vec<u8> = Vec::new();
    out.push(0x69u8);
    out.push(0x6Eu8);
    let mut k: usize = 0;
    while k < refs.len()
        invariant
            k <= refs@.len(),
            out@ == in_line(refs@.subrange(0, k as int)),
        decreases refs@.len() - k,
    {
        let ghost before = out@;
        let r = refs[k];
        out.push(SPACE);
        write_decimal(r.node, &mut out);
        out.push(DOT);
        write_decimal(r.output, &mut out);
        proof {
            let pre = refs@.subrange(0, k as int);
            let post = refs@.subrange(0, k as int + 1);
            assert(post.drop_last() =~= pre);
            assert(post.last() == r);
            if k == 0 {
                assert(pre =~= Seq::<OutputRef>::empty());
                assert(before =~= in_keyword());
                assert(out@ =~= in_line(post));
            } else {
                assert(out@ =~= in_line(post));
            }
        }
        k += 1;
    }
    proof {
        assert(refs@.subrange(0, k as int) =~= refs@);
    }
    out
}

/// The bytes before and after the first `sep` of `s`, if it has one.
pub open spec fn split_first(s: Seq<u8>, sep: u8) -> Option<(Seq<u8>, Seq<u8>)>
    decreases s.len(),
{
    if s.len() == 0 {
        None
    } else if s[0] == sep {
        Some((Seq::empty(), s.subrange(1, s.len() as int)))
    } else {
        match split_first(s.subrange(1, s.len() as int), sep) {
            Some((a, b)) => Some((seq![s[0]] + a, b)),
            None => None,
        }
    }
}

proof fn lemma_split_first_at(s: Seq<u8>, sep: u8, i: int)
    requires
        0 <= i < s.len(),
        s[i] == sep,
        forall|j: int| 0 <= j < i ==> #[trigger] s[j] != sep,
    ensures
        split_first(s, sep) == Some((s.subrange(0, i), s.subrange(i + 1, s.len() as int))),
    decreases i,
{
    if i > 0 {
        let t = s.subrange(1, s.len() as int);
        assert forall|j: int| 0 <= j < i - 1 implies #[trigger] t[j] != sep by {
            assert(t[j] == s[j + 1]);
        }
        lemma_split_first_at(t, sep, i - 1);
        assert(seq![s[0]] + t.subrange(0, i - 1) =~= s.subrange(0, i));
        assert(t.subrange(i, t.len() as int) =~= s.subrange(i + 1, s.len() as int));
    } else {
        assert(s.subrange(0, 0) =~= Seq::<u8>::empty());
    }
}

pub proof fn lemma_split_first_none(s: Seq<u8>, sep: u8)
    requires
        forall|j: int| 0 <= j < s.len() ==> #[trigger] s[j] != sep,
    ensures
        split_first(s, sep).is_none(),
    decreases s.len(),
{
    if s.len() > 0 {
        let t = s.subrange(1, s.len() as int);
        assert forall|j: int| 0 <= j < t.len() implies #[trigger] t[j] != sep by {
            assert(t[j] == s[j + 1]);
        }
        lemma_split_first_none(t, sep);
    }
}

pub fn copy_range(s: &[u8], lo: usize, hi: usize) -> (r: Vec<u8>)
    requires
        lo <= hi <= s@.len(),
    ensures
        r@ == s@.subrange(lo as int, hi as int),
{
    let mut r: Vec<u8> = Vec::new();
    let mut i = lo;
    while i < hi
        invariant
            lo <= i <= hi,
            hi <= s@.len(),
            r@ == s@.subrange(lo as int, i as int),
        decreases hi - i,
    {
        r.push(s[i]);
        proof {
            assert(r@ =~= s@.subrange(lo as int, i as int + 1));
        }
        i += 1;
    }
    r
}

/// Splits at the first separator byte.
pub fn split_first_bytes(s: &[u8], sep: u8) -> (r: Option<(Vec<u8>, Vec<u8>)>)
    ensures
        match r {
            Some((a, b)) => split_first(s@, sep) == Some((a@, b@)),
            None => split_first(s@, sep).is_none(),
        },
{
    let n = s.len();
    let mut i: usize = 0;
    while i < n
        invariant
            n == s@.len(),
            i <= n,
            forall|j: int| 0 <= j < i ==> #[trigger] s@[j] != sep,
        decreases n - i,
    {
        if s[i] == sep {
            proof {
                lemma_split_first_at(s@, sep, i as int);
            }
            return Some((copy_range(s, 0, i), copy_range(s, i + 1, n)));
        }
        i += 1;
    }
    proof {
        lemma_split_first_none(s@, sep);
    }
    None
}

/// Whether two byte strings are equal.
pub fn bytes_equal(a: &[u8], b: &[u8]) -> (r: bool)
    ensures
        r == (a@ == b@),
{
    if a.len() != b.len() {
        return false;
    }
    let mut i: usize = 0;
    while i < a.len()
        invariant
            a@.len() == b@.len(),
            i <= a@.len(),
            forall|j: int| 0 <= j < i ==> a@[j] == b@[j],
        decreases a@.len() - i,
    {
        if a[i] != b[i] {
            return false;
        }
        i += 1;
    }
    proof {
        assert(a@ =~= b@);
    }
    true
}

/// The word after which a line's fields follow, and the rest of the line.
pub open spec fn keyword_rest(line: Seq<u8>, word: Seq<u8>) -> Option<Seq<u8>> {
    match split_first(line, SPACE) {
        Some((w, rest)) => if w == word {
            Some(rest)
        } else {
            None
        },
        None => None,
    }
}

/// `node <id> <constructor>`: the id and the constructor name.
pub open spec fn node_header(line: Seq<u8>) -> Option<(usize, Seq<u8>)> {
    match keyword_rest(line, seq![0x6Eu8, 0x6Fu8, 0x64u8, 0x65u8]) {
        Some(rest) => match split_first(rest, SPACE) {
            Some((id, name)) => match number_of(id) {
                Some(n) => Some((n, name)),
                None => None,
            },
            None => None,
        },
        None => None,
    }
}

/// `r <slot>` or `r <slot> <resource id>`: the slot and the linked id, if any.
pub open spec fn resource_link(line: Seq<u8>) -> Option<(Seq<u8>, Option<usize>)> {
    match keyword_rest(line, seq![0x72u8]) {
        Some(rest) => match split_first(rest, SPACE) {
            None => Some((rest, None)),
            Some((slot, id)) => match number_of(id) {
                Some(n) => Some((slot, Some(n))),
                None => None,
            },
        },
        None => None,
    }
}

/// How a resource's data is stored in a project file.
#[derive(Debug, Clone, PartialEq, Eq)]
pub enum Storage {
    /// This many bytes of payload follow the line.
    Internal(usize),
    /// The data is read from this (quoted) path.
    External(Vec<u8>),
}

/// The bytes `internal`.
pub open spec fn internal_word() -> Seq<u8> {
    seq![0x69u8, 0x6Eu8, 0x74u8, 0x65u8, 0x72u8, 0x6Eu8, 0x61u8, 0x6Cu8]
}

/// The bytes `external`.
pub open spec fn external_word() -> Seq<u8> {
    seq![0x65u8, 0x78u8, 0x74u8, 0x65u8, 0x72u8, 0x6Eu8, 0x61u8, 0x6Cu8]
}

/// `res <id> <kind> internal <size>` or `res <id> <kind> external <path>`.
pub open spec fn res_header(line: Seq<u8>) -> Option<(usize, Seq<u8>, bool, Seq<u8>)> {
    match keyword_rest(line, seq![0x72u8, 0x65u8, 0x73u8]) {
        Some(r1) => match split_first(r1, SPACE) {
            Some((id, r2)) => match split_first(r2, SPACE) {
                Some((kind, r3)) => match split_first(r3, SPACE) {
                    Some((storage, rest)) => match number_of(id) {
                        Some(n) => if storage == internal_word() {
                            Some((n, kind, true, rest))
                        } else if storage == external_word() {
                            Some((n, kind, false, rest))
                        } else {
                            None
                        },
                        None => None,
                    },
                    None => None,
                },
                None => None,
            },
            None => None,
        },
        None => None,
    }
}

/// Reads the id and constructor name of a `node` line.
pub fn parse_node_header(line: &[u8]) -> (r: Option<(usize, Vec<u8>)>)
    ensures
        match r {
            Some((id, name)) => node_header(line@) == Some((id, name@)),
            None => node_header(line@).is_none(),
        },
{
    let (word, rest) = split_first_bytes(line, SPACE)?;
    if !bytes_equal(word.as_slice(), vec![0x6Eu8, 0x6Fu8, 0x64u8, 0x65u8].as_slice()) {
        return None;
    }
    let (id, name) = split_first_bytes(rest.as_slice(), SPACE)?;
    let n = parse_number(id.as_slice())?;
    Some((n, name))
}

/// Reads the slot and linked resource id of an `r` line.
pub fn parse_resource_link(line: &[u8]) -> (r: Option<(Vec<u8>, Option<usize>)>)
    ensures
        match r {
            Some((slot, id)) => resource_link(line@) == Some((slot@, id)),
            None => resource_link(line@).is_none(),
        },
{
    let (word, rest) = split_first_bytes(line, SPACE)?;
    let mut kw: Vec<u8> = Vec::new();
    kw.push(0x72u8);
    proof {
        assert(kw@ =~= seq![0x72u8]);
    }
    if !bytes_equal(word.as_slice(), kw.as_slice()) {
        return None;
    }
    match split_first_bytes(rest.as_slice(), SPACE) {
        None => Some((rest, None)),
        Some((slot, id)) => {
            let n = parse_number(id.as_slice())?;
            Some((slot, Some(n)))
        },
    }
}

/// Reads the id, kind and storage of a `res` line.
pub fn parse_res_header(line: &[u8]) -> (r: Option<(usize, Vec<u8>, Storage)>)
    ensures
        match r {
            Some((id, kind, Storage::Internal(size))) => res_header(line@) matches Some((i, k, true, rest))
                && i == id && k == kind@ && number_of(rest) == Some(size),
            Some((id, kind, Storage::External(path))) => res_header(line@) == Some(
                (id, kind@, false, path@),
            ),
            None => res_header(line@).is_none() || (res_header(line@) matches Some((_, _, true, rest))
                && number_of(rest).is_none()),
        },
{
    let (word, r1) = split_first_bytes(line, SPACE)?;
    if !bytes_equal(word.as_slice(), vec![0x72u8, 0x65u8, 0x73u8].as_slice()) {
        return None;
    }
    let (id, r2) = split_first_bytes(r1.as_slice(), SPACE)?;
    let (kind, r3) = split_first_bytes(r2.as_slice(), SPACE)?;
    let (storage, rest) = split_first_bytes(r3.as_slice(), SPACE)?;
    let n = parse_number(id.as_slice())?;
    if bytes_equal(
        storage.as_slice(),
        vec![0x69u8, 0x6Eu8, 0x74u8, 0x65u8, 0x72u8, 0x6Eu8, 0x61u8, 0x6Cu8].as_slice(),
    ) {
        let size = parse_number(rest.as_slice())?;
        Some((n, kind, Storage::Internal(size)))
    } else if bytes_equal(
        storage.as_slice(),
        vec![0x65u8, 0x78u8, 0x74u8, 0x65u8, 0x72u8, 0x6Eu8, 0x61u8, 0x6Cu8].as_slice(),
    ) {
        Some((n, kind, Storage::External(rest)))
    } else {
        None
    }
}

/// `param <value>`: the written value.
pub open spec fn param_line(line: Seq<u8>) -> Option<Seq<u8>> {
    keyword_rest(line, seq![0x70u8, 0x61u8, 0x72u8, 0x61u8, 0x6Du8])
}

/// `meta <key> <value>`: the key and the written value.
pub open spec fn meta_line(line: Seq<u8>) -> Option<(Seq<u8>, Seq<u8>)> {
    match keyword_rest(line, seq![0x6Du8, 0x65u8, 0x74u8, 0x61u8]) {
        Some(rest) => split_first(rest, SPACE),
        None => None,
    }
}

/// Reads the value of a `param` line.
pub fn parse_param_line(line: &[u8]) -> (r: Option<Vec<u8>>)
    ensures
        match r {
            Some(v) => param_line(line@) == Some(v@),
            None => param_line(line@).is_none(),
        },
{
    let (word, rest) = split_first_bytes(line, SPACE)?;
    if !bytes_equal(word.as_slice(), vec![0x70u8, 0x61u8, 0x72u8, 0x61u8, 0x6Du8].as_slice()) {
        return None;
    }
    Some(rest)
}

/// Reads the key and value of a `meta` line.
pub fn parse_meta_line(line: &[u8]) -> (r: Option<(Vec<u8>, Vec<u8>)>)
    ensures
        match r {
            Some((k, v)) => meta_line(line@) == Some((k@, v@)),
            None => meta_line(line@).is_none(),
        },
{
    let (word, rest) = split_first_bytes(line, SPACE)?;
    if !bytes_equal(word.as_slice(), vec![0x6Du8, 0x65u8, 0x74u8, 0x61u8].as_slice()) {
        return None;
    }
    split_first_bytes(rest.as_slice(), SPACE)
}

/// Space, tab, carriage return or line feed.
pub open spec fn is_whitespace(b: u8) -> bool {
    b == 0x20u8 || b == 0x09u8 || b == 0x0Du8 || b == 0x0Au8
}

/// Whether a metadata key or resource kind holds whitespace, which the
/// project format does not allow in them.
pub fn contains_whitespace(s: &[u8]) -> (r: bool)
    ensures
        r == exists|i: int| 0 <= i < s@.len() && is_whitespace(#[trigger] s@[i]),
{
    let mut i: usize = 0;
    while i < s.len()
        invariant
            i <= s@.len(),
            forall|j: int| 0 <= j < i ==> !is_whitespace(#[trigger] s@[j]),
        decreases s@.len() - i,
    {
        let b = s[i];
        if b == 0x20u8 || b == 0x09u8 || b == 0x0Du8 || b == 0x0Au8 {
            return true;
        }
        i += 1;
    }
    false
}

/// No byte of `s` is a space.
pub open spec fn no_space(s: Seq<u8>) -> bool {
    forall|i: int| 0 <= i < s.len() ==> #[trigger] s[i] != SPACE
}

pub proof fn lemma_split_first_concat(a: Seq<u8>, b: Seq<u8>, sep: u8)
    requires
        forall|i: int| 0 <= i < a.len() ==> #[trigger] a[i] != sep,
    ensures
        split_first(a.push(sep) + b, sep) == Some((a, b)),
{
    let s = a.push(sep) + b;
    assert forall|j: int| 0 <= j < a.len() implies #[trigger] s[j] != sep by {
        assert(s[j] == a[j]);
    }
    lemma_split_first_at(s, sep, a.len() as int);
    assert(s.subrange(0, a.len() as int) =~= a);
    assert(s.subrange(a.len() as int + 1, s.len() as int) =~= b);
}

pub proof fn lemma_decimal_no_space(n: nat)
    ensures
        no_space(decimal(n)),
{
    lemma_decimal_digits(n);
    assert forall|i: int| 0 <= i < decimal(n).len() implies #[trigger] decimal(n)[i] != SPACE by {
        assert(is_digit(decimal(n)[i]));
    }
}

/// `node <id> <constructor>`.
pub open spec fn node_line(id: usize, ctor: Seq<u8>) -> Seq<u8> {
    seq![0x6Eu8, 0x6Fu8, 0x64u8, 0x65u8].push(SPACE) + decimal(id as nat).push(SPACE) + ctor
}

/// `r <slot>` or `r <slot> <id>`.
pub open spec fn resource_link_line(slot: Seq<u8>, id: Option<usize>) -> Seq<u8> {
    match id {
        Some(n) => seq![0x72u8].push(SPACE) + slot.push(SPACE) + decimal(n as nat),
        None => seq![0x72u8].push(SPACE) + slot,
    }
}

/// `meta <key> <value>`.
pub open spec fn meta_text(key: Seq<u8>, value: Seq<u8>) -> Seq<u8> {
    seq![0x6Du8, 0x65u8, 0x74u8, 0x61u8].push(SPACE) + key.push(SPACE) + value
}

/// A `node` line written for an id and constructor reads back as them.
pub proof fn lemma_node_line_round_trip(id: usize, ctor: Seq<u8>)
    ensures
        node_header(node_line(id, ctor)) == Some((id, ctor)),
{
    let kw = seq![0x6Eu8, 0x6Fu8, 0x64u8, 0x65u8];
    let rest = decimal(id as nat).push(SPACE) + ctor;
    assert(node_line(id, ctor) =~= kw.push(SPACE) + rest);
    lemma_split_first_concat(kw, rest, SPACE);
    lemma_decimal_no_space(id as nat);
    lemma_split_first_concat(decimal(id as nat), ctor, SPACE);
    lemma_decimal_digits(id as nat);
}

/// An `r` line written for a space-free slot reads back as the slot and id.
pub proof fn lemma_resource_link_round_trip(slot: Seq<u8>, id: Option<usize>)
    requires
        no_space(slot),
    ensures
        resource_link(resource_link_line(slot, id)) == Some((slot, id)),
{
    let kw = seq![0x72u8];
    match id {
        Some(n) => {
            let rest = slot.push(SPACE) + decimal(n as nat);
            assert(resource_link_line(slot, id) =~= kw.push(SPACE) + rest);
            lemma_split_first_concat(kw, rest, SPACE);
            lemma_split_first_concat(slot, decimal(n as nat), SPACE);
            lemma_decimal_digits(n as nat);
        },
        None => {
            assert(resource_link_line(slot, id) =~= kw.push(SPACE) + slot);
            lemma_split_first_concat(kw, slot, SPACE);
            lemma_split_first_none(slot, SPACE);
        },
    }
}

/// A `meta` line written for a space-free key reads back as key and value.
pub proof fn lemma_meta_line_round_trip(key: Seq<u8>, value: Seq<u8>)
    requires
        no_space(key),
    ensures
        meta_line(meta_text(key, value)) == Some((key, value)),
{
    let kw = seq![0x6Du8, 0x65u8, 0x74u8, 0x61u8];
    let rest = key.push(SPACE) + value;
    assert(meta_text(key, value) =~= kw.push(SPACE) + rest);
    lemma_split_first_concat(kw, rest, SPACE);
    lemma_split_first_concat(key, value, SPACE);
}

pub fn push_all(out: &mut Vec<u8>, s: &[u8])
    ensures
        final(out)@ == old(out)@ + s@,
{
    let mut i: usize = 0;
    while i < s.len()
        invariant
            i <= s@.len(),
            out@ == old(out)@ + s@.subrange(0, i as int),
        decreases s@.len() - i,
    {
        out.push(s[i]);
        proof {
            assert(out@ =~= old(out)@ + s@.subrange(0, i as int + 1));
        }
        i += 1;
    }
    proof {
        assert(s@.subrange(0, i as int) =~= s@);
    }
}

/// Writes the `node` line of a node.
pub fn format_node_line(id: usize, ctor: &[u8]) -> (r: Vec<u8>)
    ensures
        r@ == node_line(id, ctor@),
{
    let mut out: Vec<u8> = Vec::new();
    push_all(&mut out, vec![0x6Eu8, 0x6Fu8, 0x64u8, 0x65u8, SPACE].as_slice());
    write_decimal(id, &mut out);
    out.push(SPACE);
    push_all(&mut out, ctor);
    proof {
        assert(out@ =~= node_line(id, ctor@));
    }
    out
}

/// Writes the `r` line of a resource slot.
pub fn format_resource_link(slot: &[u8], id: Option<usize>) -> (r: Vec<u8>)
    ensures
        r@ == resource_link_line(slot@, id),
{
    let mut out: Vec<u8> = Vec::new();
    out.push(0x72u8);
    out.push(SPACE);
    push_all(&mut out, slot);
    match id {
        Some(n) => {
            out.push(SPACE);
            write_decimal(n, &mut out);
        },
        None => {},
    }
    proof {
        assert(out@ =~= resource_link_line(slot@, id));
    }
    out
}

/// Writes a `meta` line.
pub fn format_meta_line(key: &[u8], value: &[u8]) -> (r: Vec<u8>)
    ensures
        r@ == meta_text(key@, value@),
{
    let mut out: Vec<u8> = Vec::new();
    push_all(&mut out, vec![0x6Du8, 0x65u8, 0x74u8, 0x61u8, SPACE].as_slice());
    push_all(&mut out, key);
    out.push(SPACE);
    push_all(&mut out, value);
    proof {
        assert(out@ =~= meta_text(key@, value@));
    }
    out
}

} // verus!
