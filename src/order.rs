//! A strict total order on strings: by character codes, a proper prefix first.
use vstd::prelude::*;
use vstd::string::StrSliceExecFns;

verus! {

/// `a` comes strictly before `b`.
pub open spec fn str_lt(a: Seq<char>, b: Seq<char>) -> bool
    decreases a.len(),
{
    if b.len() == 0 {
        false
    } else if a.len() == 0 {
        true
    } else if a[0] != b[0] {
        (a[0] as int) < (b[0] as int)
    } else {
        str_lt(a.drop_first(), b.drop_first())
    }
}

pub proof fn lemma_str_lt_irreflexive(a: Seq<char>)
    ensures
        !str_lt(a, a),
    decreases a.len(),
{
    if a.len() > 0 {
        lemma_str_lt_irreflexive(a.drop_first());
    }
}

pub proof fn lemma_str_lt_transitive(a: Seq<char>, b: Seq<char>, c: Seq<char>)
    requires
        str_lt(a, b),
        str_lt(b, c),
    ensures
        str_lt(a, c),
    decreases a.len(),
{
    if a.len() > 0 && a[0] == b[0] && b[0] == c[0] {
        lemma_str_lt_transitive(a.drop_first(), b.drop_first(), c.drop_first());
    }
}

pub proof fn lemma_str_lt_total(a: Seq<char>, b: Seq<char>)
    requires
        a != b,
    ensures
        str_lt(a, b) || str_lt(b, a),
    decreases a.len(),
{
    if a.len() > 0 && b.len() > 0 && a[0] != b[0] {
        assert(a[0] as int != b[0] as int);
    }
    if a.len() > 0 && b.len() > 0 && a[0] == b[0] {
        if a.drop_first() == b.drop_first() {
            assert(a =~= seq![a[0]] + a.drop_first());
            assert(b =~= seq![b[0]] + b.drop_first());
        }
        lemma_str_lt_total(a.drop_first(), b.drop_first());
    } else if a.len() == 0 && b.len() == 0 {
        assert(a =~= b);
    }
}

/// Whether `a` comes strictly before `b`.
pub fn str_less(a: &String, b: &String) -> (r: bool)
    ensures
        r == str_lt(a@, b@),
{
    let sa = a.as_str();
    let sb = b.as_str();
    let na = sa.unicode_len();
    let nb = sb.unicode_len();
    let mut i: usize = 0;
    assert(a@.subrange(0, na as int) =~= a@);
    assert(b@.subrange(0, nb as int) =~= b@);
    while i < na && i < nb
        invariant
            na == a@.len(),
            nb == b@.len(),
            sa@ == a@,
            sb@ == b@,
            i <= na,
            i <= nb,
            str_lt(a@, b@) == str_lt(a@.subrange(i as int, na as int), b@.subrange(i as int, nb as int)),
        decreases na - i,
    {
        let ca = sa.get_char(i);
        let cb = sb.get_char(i);
        let ghost ra = a@.subrange(i as int, na as int);
        let ghost rb = b@.subrange(i as int, nb as int);
        assert(ra[0] == ca && rb[0] == cb);
        if ca != cb {
            return (ca as u32) < (cb as u32);
        }
        assert(ra.drop_first() =~= a@.subrange(i + 1, na as int));
        assert(rb.drop_first() =~= b@.subrange(i + 1, nb as int));
        i = i + 1;
    }
    i < nb
}

} // verus!
