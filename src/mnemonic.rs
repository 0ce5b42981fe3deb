//! Mnemonic translation between the portable text convention and the
//! native toolkit convention.
//!
//! Portable text marks the access key with `&` (`"&File"`) and writes a
//! literal ampersand as `&&`. The native toolkit marks it with `_`
//! (`"_File"`) and writes a literal underscore as `__`.
use vstd::prelude::*;

verus! {

/// Portable text translated to the native convention.
pub open spec fn to_native_spec(s: Seq<char>) -> Seq<char>
    decreases s.len(),
{
    if s.len() == 0 {
        Seq::<char>::empty()
    } else if s[0] == '&' && s.len() >= 2 {
        if s[1] == '&' {
            seq!['&'] + to_native_spec(s.skip(2))
        } else {
            seq!['_', s[1]] + to_native_spec(s.skip(2))
        }
    } else if s[0] == '_' {
        seq!['_', '_'] + to_native_spec(s.skip(1))
    } else {
        seq![s[0]] + to_native_spec(s.skip(1))
    }
}

/// Native text translated to the portable convention.
pub open spec fn from_native_spec(s: Seq<char>) -> Seq<char>
    decreases s.len(),
{
    if s.len() == 0 {
        Seq::<char>::empty()
    } else if s[0] == '_' && s.len() >= 2 {
        if s[1] == '_' {
            seq!['_'] + from_native_spec(s.skip(2))
        } else {
            seq!['&', s[1]] + from_native_spec(s.skip(2))
        }
    } else if s[0] == '&' {
        seq!['&', '&'] + from_native_spec(s.skip(1))
    } else {
        seq![s[0]] + from_native_spec(s.skip(1))
    }
}

/// Well-formed portable text: every marker is followed either by a second
/// marker (a literal `&`) or by the access key, which is not `_`.
pub open spec fn portable_ok(s: Seq<char>) -> bool
    decreases s.len(),
{
    if s.len() == 0 {
        true
    } else if s[0] == '&' {
        s.len() >= 2 && s[1] != '_' && portable_ok(s.skip(2))
    } else {
        portable_ok(s.skip(1))
    }
}

/// Well-formed native text: every marker is followed either by a second
/// marker (a literal `_`) or by the access key, which is not `&`.
pub open spec fn native_ok(s: Seq<char>) -> bool
    decreases s.len(),
{
    if s.len() == 0 {
        true
    } else if s[0] == '_' {
        s.len() >= 2 && s[1] != '&' && native_ok(s.skip(2))
    } else {
        native_ok(s.skip(1))
    }
}

/// Translating well-formed portable text to the native convention and back
/// gives the text unchanged.
pub proof fn lemma_portable_round_trip(s: Seq<char>)
    requires
        portable_ok(s),
    ensures
        from_native_spec(to_native_spec(s)) == s,
        native_ok(to_native_spec(s)),
    decreases s.len(),
{
    if s.len() == 0 {
    } else if s[0] == '&' {
        let rest = s.skip(2);
        lemma_portable_round_trip(rest);
        let n = to_native_spec(s);
        if s[1] == '&' {
            assert(n == seq!['&'] + to_native_spec(rest));
            assert(n.skip(1) =~= to_native_spec(rest));
            assert(from_native_spec(n) == seq!['&', '&'] + from_native_spec(n.skip(1)));
        } else {
            assert(n == seq!['_', s[1]] + to_native_spec(rest));
            assert(n.skip(2) =~= to_native_spec(rest));
            assert(from_native_spec(n) == seq!['&', s[1]] + from_native_spec(n.skip(2)));
        }
        assert(s =~= seq![s[0], s[1]] + rest);
    } else if s[0] == '_' {
        let rest = s.skip(1);
        lemma_portable_round_trip(rest);
        let n = to_native_spec(s);
        assert(n == seq!['_', '_'] + to_native_spec(rest));
        assert(n.skip(2) =~= to_native_spec(rest));
        assert(s =~= seq![s[0]] + rest);
    } else {
        let rest = s.skip(1);
        lemma_portable_round_trip(rest);
        let n = to_native_spec(s);
        assert(n == seq![s[0]] + to_native_spec(rest));
        assert(n.skip(1) =~= to_native_spec(rest));
        assert(s =~= seq![s[0]] + rest);
    }
}

/// Translating well-formed native text to the portable convention and back
/// gives the text unchanged.
pub proof fn lemma_native_round_trip(s: Seq<char>)
    requires
        native_ok(s),
    ensures
        to_native_spec(from_native_spec(s)) == s,
        portable_ok(from_native_spec(s)),
    decreases s.len(),
{
    if s.len() == 0 {
    } else if s[0] == '_' {
        let rest = s.skip(2);
        lemma_native_round_trip(rest);
        let p = from_native_spec(s);
        if s[1] == '_' {
            assert(p == seq!['_'] + from_native_spec(rest));
            assert(p.skip(1) =~= from_native_spec(rest));
            assert(to_native_spec(p) == seq!['_', '_'] + to_native_spec(p.skip(1)));
        } else {
            assert(p == seq!['&', s[1]] + from_native_spec(rest));
            assert(p.skip(2) =~= from_native_spec(rest));
            assert(to_native_spec(p) == seq!['_', s[1]] + to_native_spec(p.skip(2)));
        }
        assert(s =~= seq![s[0], s[1]] + rest);
    } else if s[0] == '&' {
        let rest = s.skip(1);
        lemma_native_round_trip(rest);
        let p = from_native_spec(s);
        assert(p == seq!['&', '&'] + from_native_spec(rest));
        assert(p.skip(2) =~= from_native_spec(rest));
        assert(s =~= seq![s[0]] + rest);
    } else {
        let rest = s.skip(1);
        lemma_native_round_trip(rest);
        let p = from_native_spec(s);
        assert(p == seq![s[0]] + from_native_spec(rest));
        assert(p.skip(1) =~= from_native_spec(rest));
        assert(s =~= seq![s[0]] + rest);
    }
}

/// Translates portable text to the native convention.
pub fn to_native(s: &Vec<char>) -> (r: Vec<char>)
    ensures
        r@ == to_native_spec(s@),
{
    let mut out: Vec<char> = Vec::new();
    let mut i: usize = 0;
    assert(s@.skip(0) =~= s@);
    assert(out@ + to_native_spec(s@) =~= to_native_spec(s@));
    while i < s.len()
        invariant
            i <= s@.len(),
            to_native_spec(s@) == out@ + to_native_spec(s@.skip(i as int)),
        decreases s@.len() - i,
    {
        let ghost rest = s@.skip(i as int);
        let c = s[i];
        if c == '&' && i + 1 < s.len() {
            let d = s[i + 1];
            assert(rest.skip(2) =~= s@.skip(i + 2));
            if d == '&' {
                out.push('&');
            } else {
                out.push('_');
                out.push(d);
            }
            i = i + 2;
        } else {
            assert(rest.skip(1) =~= s@.skip(i + 1));
            if c == '_' {
                out.push('_');
                out.push('_');
            } else {
                out.push(c);
            }
            i = i + 1;
        }
    }
    assert(s@.skip(i as int) =~= Seq::<char>::empty());
    assert(out@ =~= out@ + Seq::<char>::empty());
    out
}

/// Translates native text to the portable convention.
pub fn from_native(s: &Vec<char>) -> (r: Vec<char>)
    ensures
        r@ == from_native_spec(s@),
{
    let mut out: Vec<char> = Vec::new();
    let mut i: usize = 0;
    assert(s@.skip(0) =~= s@);
    assert(out@ + from_native_spec(s@) =~= from_native_spec(s@));
    while i < s.len()
        invariant
            i <= s@.len(),
            from_native_spec(s@) == out@ + from_native_spec(s@.skip(i as int)),
        decreases s@.len() - i,
    {
        let ghost rest = s@.skip(i as int);
        let c = s[i];
        if c == '_' && i + 1 < s.len() {
            let d = s[i + 1];
            assert(rest.skip(2) =~= s@.skip(i + 2));
            if d == '_' {
                out.push('_');
            } else {
                out.push('&');
                out.push(d);
            }
            i = i + 2;
        } else {
            assert(rest.skip(1) =~= s@.skip(i + 1));
            if c == '&' {
                out.push('&');
                out.push('&');
            } else {
                out.push(c);
            }
            i = i + 1;
        }
    }
    assert(s@.skip(i as int) =~= Seq::<char>::empty());
    assert(out@ =~= out@ + Seq::<char>::empty());
    out
}

} // verus!
