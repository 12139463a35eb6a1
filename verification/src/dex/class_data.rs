//! Decoding of `class_data_item`: the delta-encoded field and method lists of a class.

use vstd::prelude::*;

use crate::dex::leb128::{leb_at, read_uleb128};
use crate::error::{ErrorView, Result, UnocRsError};

verus! {

/// The decoded members of one class definition.
#[derive(Debug, Clone, PartialEq, Eq)]
pub struct EncodedClassData {
    pub static_fields: Vec<EncodedField>,
    pub instance_fields: Vec<EncodedField>,
    pub direct_methods: Vec<EncodedMethod>,
    pub virtual_methods: Vec<EncodedMethod>,
}

/// A field declaration: index into the field table and access flags.
#[derive(Debug, Clone, Copy, PartialEq, Eq)]
pub struct EncodedField {
    pub field_idx: u32,
    pub access_flags: u32,
}

/// A method declaration: index into the method table, access flags and code offset.
#[derive(Debug, Clone, Copy, PartialEq, Eq)]
pub struct EncodedMethod {
    pub method_idx: u32,
    pub access_flags: u32,
    pub code_off: u32,
}

/// Reading one LEB128 value at `cur`: the value and the cursor after it, or the error.
pub open spec fn next_value(bytes: Seq<u8>, cur: usize) -> core::result::Result<(u32, usize), ErrorView> {
    match leb_at(bytes, cur) {
        Ok(v) => Ok((v.value, (cur + v.bytes_read) as usize)),
        Err(e) => Err(e@),
    }
}

/// Decoding `n` more fields at `cur`, after `acc`, the last field index being `running`.
pub open spec fn fields_from(bytes: Seq<u8>, cur: usize, n: nat, running: u32, acc: Seq<EncodedField>)
    -> core::result::Result<(Seq<EncodedField>, usize), ErrorView>
    decreases n,
{
    if n == 0 {
        Ok((acc, cur))
    } else {
        match next_value(bytes, cur) {
            Err(t) => Err(t),
            Ok((delta, c1)) => if running + delta > u32::MAX {
                Err(ErrorView::InvalidClassData { reason: "field index overflow"@ })
            } else {
                match next_value(bytes, c1) {
                    Err(t) => Err(t),
                    Ok((flags, c2)) => {
                        let idx = (running + delta) as u32;
                        fields_from(bytes, c2, (n - 1) as nat, idx,
                            acc.push(EncodedField { field_idx: idx, access_flags: flags }))
                    },
                }
            },
        }
    }
}

/// Decoding `n` more methods at `cur`, after `acc`, the last method index being `running`.
pub open spec fn methods_from(bytes: Seq<u8>, cur: usize, n: nat, running: u32, acc: Seq<EncodedMethod>)
    -> core::result::Result<(Seq<EncodedMethod>, usize), ErrorView>
    decreases n,
{
    if n == 0 {
        Ok((acc, cur))
    } else {
        match next_value(bytes, cur) {
            Err(t) => Err(t),
            Ok((delta, c1)) => if running + delta > u32::MAX {
                Err(ErrorView::InvalidClassData { reason: "method index overflow"@ })
            } else {
                match next_value(bytes, c1) {
                    Err(t) => Err(t),
                    Ok((flags, c2)) => match next_value(bytes, c2) {
                        Err(t) => Err(t),
                        Ok((code_off, c3)) => {
                            let idx = (running + delta) as u32;
                            methods_from(bytes, c3, (n - 1) as nat, idx, acc.push(
                                EncodedMethod { method_idx: idx, access_flags: flags, code_off }))
                        },
                    },
                }
            },
        }
    }
}

/// The four member lists of the class data at `off`, or the error decoding stops at: four
/// LEB128 counts, then the static fields, instance fields, direct methods and virtual
/// methods, each list delta-encoding its indices.
pub open spec fn class_data_at(bytes: Seq<u8>, off: usize) -> core::result::Result<
    (Seq<EncodedField>, Seq<EncodedField>, Seq<EncodedMethod>, Seq<EncodedMethod>),
    ErrorView,
> {
    match next_value(bytes, off) {
        Err(t) => Err(t),
        Ok((n_sf, c1)) => match next_value(bytes, c1) {
            Err(t) => Err(t),
            Ok((n_if, c2)) => match next_value(bytes, c2) {
                Err(t) => Err(t),
                Ok((n_dm, c3)) => match next_value(bytes, c3) {
                    Err(t) => Err(t),
                    Ok((n_vm, c4)) => match fields_from(bytes, c4, n_sf as nat, 0, Seq::empty()) {
                        Err(t) => Err(t),
                        Ok((sf, c5)) => match fields_from(bytes, c5, n_if as nat, 0, Seq::empty()) {
                            Err(t) => Err(t),
                            Ok((inf, c6)) => match methods_from(bytes, c6, n_dm as nat, 0, Seq::empty()) {
                                Err(t) => Err(t),
                                Ok((dm, c7)) => match methods_from(bytes, c7, n_vm as nat, 0, Seq::empty()) {
                                    Err(t) => Err(t),
                                    Ok((vm, _c8)) => Ok((sf, inf, dm, vm)),
                                },
                            },
                        },
                    },
                },
            },
        },
    }
}

fn read_next(bytes: &[u8], cursor: &mut usize) -> (r: Result<u32>)
    ensures
        match next_value(bytes@, *old(cursor)) {
            Ok((v, c)) => r == Ok::<u32, UnocRsError>(v) && *final(cursor) == c,
            Err(t) => r matches Err(e) && e@ == t,
        },
{
    let value = read_uleb128(bytes, *cursor)?;
    let n = bytes.len();
    assert(*cursor + value.bytes_read <= n);
    *cursor = *cursor + value.bytes_read;
    Ok(value.value)
}

fn read_fields(bytes: &[u8], cursor: &mut usize, count: u32) -> (r: Result<Vec<EncodedField>>)
    ensures
        match fields_from(bytes@, *old(cursor), count as nat, 0, Seq::empty()) {
            Ok((fs, c)) => r matches Ok(v) && v@ == fs && *final(cursor) == c,
            Err(t) => r matches Err(e) && e@ == t,
        },
{
    let mut fields: Vec<EncodedField> = Vec::new();
    let mut running: u32 = 0;
    let mut i: u32 = 0;
    while i < count
        invariant
            i <= count,
            fields_from(bytes@, *old(cursor), count as nat, 0, Seq::empty())
                == fields_from(bytes@, *cursor, (count - i) as nat, running, fields@),
        decreases count - i,
    {
        let delta = read_next(bytes, cursor)?;
        if delta > u32::MAX - running {
            let reason = crate::chars::string_from_chars(&['f', 'i', 'e', 'l', 'd', ' ', 'i', 'n', 'd', 'e', 'x', ' ', 'o', 'v', 'e', 'r', 'f', 'l', 'o', 'w']);
            proof {
                reveal_strlit("field index overflow");
                assert(reason@ =~= "field index overflow"@);
            }
            let e = UnocRsError::InvalidClassData { reason };
            return Err(e);
        }
        running = running + delta;
        let access_flags = read_next(bytes, cursor)?;
        fields.push(EncodedField { field_idx: running, access_flags });
        i = i + 1;
    }
    Ok(fields)
}

fn read_methods(bytes: &[u8], cursor: &mut usize, count: u32) -> (r: Result<Vec<EncodedMethod>>)
    ensures
        match methods_from(bytes@, *old(cursor), count as nat, 0, Seq::empty()) {
            Ok((ms, c)) => r matches Ok(v) && v@ == ms && *final(cursor) == c,
            Err(t) => r matches Err(e) && e@ == t,
        },
{
    let mut methods: Vec<EncodedMethod> = Vec::new();
    let mut running: u32 = 0;
    let mut i: u32 = 0;
    while i < count
        invariant
            i <= count,
            methods_from(bytes@, *old(cursor), count as nat, 0, Seq::empty())
                == methods_from(bytes@, *cursor, (count - i) as nat, running, methods@),
        decreases count - i,
    {
        let delta = read_next(bytes, cursor)?;
        if delta > u32::MAX - running {
            let reason = crate::chars::string_from_chars(&['m', 'e', 't', 'h', 'o', 'd', ' ', 'i', 'n', 'd', 'e', 'x', ' ', 'o', 'v', 'e', 'r', 'f', 'l', 'o', 'w']);
            proof {
                reveal_strlit("method index overflow");
                assert(reason@ =~= "method index overflow"@);
            }
            let e = UnocRsError::InvalidClassData { reason };
            return Err(e);
        }
        running = running + delta;
        let access_flags = read_next(bytes, cursor)?;
        let code_off = read_next(bytes, cursor)?;
        methods.push(EncodedMethod { method_idx: running, access_flags, code_off });
        i = i + 1;
    }
    Ok(methods)
}

/// Decodes the class data at `offset`.
pub fn parse_class_data(bytes: &[u8], offset: u32) -> (r: Result<EncodedClassData>)
    ensures
        match class_data_at(bytes@, offset as usize) {
            Ok((sf, inf, dm, vm)) => r matches Ok(d) && d.static_fields@ == sf
                && d.instance_fields@ == inf && d.direct_methods@ == dm && d.virtual_methods@ == vm,
            Err(t) => r matches Err(e) && e@ == t,
        },
{
    let mut cursor: usize = offset as usize;
    let static_fields_size = read_next(bytes, &mut cursor)?;
    let instance_fields_size = read_next(bytes, &mut cursor)?;
    let direct_methods_size = read_next(bytes, &mut cursor)?;
    let virtual_methods_size = read_next(bytes, &mut cursor)?;

    let static_fields = read_fields(bytes, &mut cursor, static_fields_size)?;
    let instance_fields = read_fields(bytes, &mut cursor, instance_fields_size)?;
    let direct_methods = read_methods(bytes, &mut cursor, direct_methods_size)?;
    let virtual_methods = read_methods(bytes, &mut cursor, virtual_methods_size)?;

    Ok(EncodedClassData { static_fields, instance_fields, direct_methods, virtual_methods })
}

/// Reading `m` successive LEB128 values from `cur`: the values and the cursor after the last,
/// when all of them can be read.
pub open spec fn leb_run(bytes: Seq<u8>, cur: usize, m: nat) -> Option<(Seq<u32>, usize)>
    decreases m,
{
    if m == 0 {
        Some((Seq::empty(), cur))
    } else {
        match next_value(bytes, cur) {
            Err(_) => None,
            Ok((v, c)) => match leb_run(bytes, c, (m - 1) as nat) {
                Some((vs, e)) => Some((seq![v] + vs, e)),
                None => None,
            },
        }
    }
}

/// The sum of the first `k` index differences of a list whose entries take `stride` values
/// each, the difference first.
pub open spec fn delta_sum(vals: Seq<u32>, stride: nat, k: nat) -> nat
    decreases k,
{
    if k == 0 {
        0
    } else {
        delta_sum(vals, stride, (k - 1) as nat) + vals[stride * (k - 1)] as nat
    }
}

/// The `n` fields of a list whose entries are the value pairs (index difference, access flags)
/// in `vals`, indices counted on from `running`.
pub open spec fn fields_of(vals: Seq<u32>, n: nat, running: nat) -> Seq<EncodedField> {
    Seq::new(
        n,
        |k: int| EncodedField { field_idx: (running + delta_sum(vals, 2, (k + 1) as nat)) as u32, access_flags: vals[2 * k + 1] },
    )
}

/// The `n` methods of a list whose entries are the value triples (index difference, access
/// flags, code offset) in `vals`, indices counted on from `running`.
pub open spec fn methods_of(vals: Seq<u32>, n: nat, running: nat) -> Seq<EncodedMethod> {
    Seq::new(
        n,
        |k: int|
            EncodedMethod {
                method_idx: (running + delta_sum(vals, 3, (k + 1) as nat)) as u32,
                access_flags: vals[3 * k + 1],
                code_off: vals[3 * k + 2],
            },
    )
}

proof fn lemma_leb_run_len(bytes: Seq<u8>, cur: usize, m: nat)
    ensures
        leb_run(bytes, cur, m) matches Some((vs, _e)) ==> vs.len() == m,
    decreases m,
{
    if m > 0 {
        if let Ok((v, c)) = next_value(bytes, cur) {
            lemma_leb_run_len(bytes, c, (m - 1) as nat);
        }
    }
}

/// Dropping the first entry of a list: the sums of the rest, after the first difference.
proof fn lemma_delta_sum_shift(vals: Seq<u32>, stride: nat, k: nat)
    requires
        1 <= stride,
        stride * (k + 1) <= vals.len(),
    ensures
        delta_sum(vals, stride, k + 1) == vals[0] + delta_sum(vals.subrange(stride as int, vals.len() as int), stride,
            k),
    decreases k,
{
    let rest = vals.subrange(stride as int, vals.len() as int);
    if k == 0 {
        assert(stride * (1int - 1) == 0) by (nonlinear_arith);
        assert(delta_sum(vals, stride, 1) == delta_sum(vals, stride, 0) + vals[stride * (1int - 1)]);
    } else {
        assert(stride * k <= stride * (k + 1)) by (nonlinear_arith)
            requires 1 <= stride;
        lemma_delta_sum_shift(vals, stride, (k - 1) as nat);
        assert(stride * (k - 1) + stride == stride * k) by (nonlinear_arith);
        assert(stride * k + stride == stride * (k + 1)) by (nonlinear_arith);
        assert(rest[stride * (k - 1)] == vals[(stride * k) as int]);
        assert(delta_sum(vals, stride, k + 1) == delta_sum(vals, stride, k) + vals[(stride * k) as int]);
        assert(delta_sum(rest, stride, k) == delta_sum(rest, stride, (k - 1) as nat) + rest[stride * (k - 1)]);
    }
}

/// A field list is its first entry followed by the list of the remaining pairs.
proof fn lemma_fields_of_cons(vs: Seq<u32>, n: nat, running: nat)
    requires
        1 <= n,
        vs.len() == 2 * n,
    ensures
        fields_of(vs, n, running) =~= seq![EncodedField { field_idx: (running + vs[0]) as u32, access_flags: vs[1] }]
            + fields_of(vs.subrange(2, vs.len() as int), (n - 1) as nat, (running + vs[0]) as nat),
{
    let rest = vs.subrange(2, vs.len() as int);
    let lhs = fields_of(vs, n, running);
    let rhs = seq![EncodedField { field_idx: (running + vs[0]) as u32, access_flags: vs[1] }] + fields_of(rest, (n
        - 1) as nat, (running + vs[0]) as nat);
    assert forall|i: int| 0 <= i < n implies lhs[i] == rhs[i] by {
        lemma_delta_sum_shift(vs, 2, i as nat);
        if i > 0 {
            assert(rest[2 * (i - 1) + 1] == vs[2 * i + 1]);
        }
    }
}

/// A method list is its first entry followed by the list of the remaining triples.
proof fn lemma_methods_of_cons(vs: Seq<u32>, n: nat, running: nat)
    requires
        1 <= n,
        vs.len() == 3 * n,
    ensures
        methods_of(vs, n, running) =~= seq![
            EncodedMethod { method_idx: (running + vs[0]) as u32, access_flags: vs[1], code_off: vs[2] },
        ] + methods_of(vs.subrange(3, vs.len() as int), (n - 1) as nat, (running + vs[0]) as nat),
{
    let rest = vs.subrange(3, vs.len() as int);
    let lhs = methods_of(vs, n, running);
    let rhs = seq![EncodedMethod { method_idx: (running + vs[0]) as u32, access_flags: vs[1], code_off: vs[2] }]
        + methods_of(rest, (n - 1) as nat, (running + vs[0]) as nat);
    assert forall|i: int| 0 <= i < n implies lhs[i] == rhs[i] by {
        lemma_delta_sum_shift(vs, 3, i as nat);
        if i > 0 {
            assert(rest[3 * (i - 1) + 1] == vs[3 * i + 1]);
            assert(rest[3 * (i - 1) + 2] == vs[3 * i + 2]);
        }
    }
}

/// Decoding `n` fields whose `2 * n` values can all be read.
proof fn lemma_fields_from(bytes: Seq<u8>, cur: usize, n: nat, running: u32, acc: Seq<EncodedField>, vs: Seq<u32>,
    end: usize)
    requires
        leb_run(bytes, cur, 2 * n) == Some((vs, end)),
    ensures
        running + delta_sum(vs, 2, n) <= u32::MAX ==> fields_from(bytes, cur, n, running, acc) == Ok::<
            (Seq<EncodedField>, usize),
            ErrorView,
        >((acc + fields_of(vs, n, running as nat), end)),
        running + delta_sum(vs, 2, n) > u32::MAX ==> fields_from(bytes, cur, n, running, acc) == Err::<
            (Seq<EncodedField>, usize),
            ErrorView,
        >(ErrorView::InvalidClassData { reason: "field index overflow"@ }),
    decreases n,
{
    lemma_leb_run_len(bytes, cur, 2 * n);
    if n == 0 {
        assert(acc + fields_of(vs, n, running as nat) =~= acc);
    } else {
        let (d, c1) = next_value(bytes, cur)->Ok_0;
        let (r1, e1) = leb_run(bytes, c1, (2 * n - 1) as nat)->Some_0;
        let (f, c2) = next_value(bytes, c1)->Ok_0;
        let (r2, e2) = leb_run(bytes, c2, (2 * n - 2) as nat)->Some_0;
        assert(vs =~= seq![d, f] + r2);
        assert(r2 =~= vs.subrange(2, vs.len() as int));
        lemma_delta_sum_shift(vs, 2, (n - 1) as nat);
        if running + d <= u32::MAX {
            let idx = (running + d) as u32;
            let m = (n - 1) as nat;
            assert(2 * m == 2 * n - 2);
            let first = EncodedField { field_idx: idx, access_flags: f };
            lemma_fields_from(bytes, c2, m, idx, acc.push(first), r2, end);
            lemma_fields_of_cons(vs, n, running as nat);
            assert(acc.push(first) + fields_of(r2, m, idx as nat) =~= acc + (seq![first] + fields_of(r2, m,
                idx as nat)));
        }
    }
}

/// Decoding `n` methods whose `3 * n` values can all be read.
proof fn lemma_methods_from(bytes: Seq<u8>, cur: usize, n: nat, running: u32, acc: Seq<EncodedMethod>,
    vs: Seq<u32>, end: usize)
    requires
        leb_run(bytes, cur, 3 * n) == Some((vs, end)),
    ensures
        running + delta_sum(vs, 3, n) <= u32::MAX ==> methods_from(bytes, cur, n, running, acc) == Ok::<
            (Seq<EncodedMethod>, usize),
            ErrorView,
        >((acc + methods_of(vs, n, running as nat), end)),
        running + delta_sum(vs, 3, n) > u32::MAX ==> methods_from(bytes, cur, n, running, acc) == Err::<
            (Seq<EncodedMethod>, usize),
            ErrorView,
        >(ErrorView::InvalidClassData { reason: "method index overflow"@ }),
    decreases n,
{
    lemma_leb_run_len(bytes, cur, 3 * n);
    if n == 0 {
        assert(acc + methods_of(vs, n, running as nat) =~= acc);
    } else {
        let (d, c1) = next_value(bytes, cur)->Ok_0;
        let (r1, e1) = leb_run(bytes, c1, (3 * n - 1) as nat)->Some_0;
        let (f, c2) = next_value(bytes, c1)->Ok_0;
        let (r2, e2) = leb_run(bytes, c2, (3 * n - 2) as nat)->Some_0;
        let (o, c3) = next_value(bytes, c2)->Ok_0;
        let (r3, e3) = leb_run(bytes, c3, (3 * n - 3) as nat)->Some_0;
        assert(vs =~= seq![d, f, o] + r3);
        assert(r3 =~= vs.subrange(3, vs.len() as int));
        lemma_delta_sum_shift(vs, 3, (n - 1) as nat);
        if running + d <= u32::MAX {
            let idx = (running + d) as u32;
            let m = (n - 1) as nat;
            assert(3 * m == 3 * n - 3);
            let first = EncodedMethod { method_idx: idx, access_flags: f, code_off: o };
            lemma_methods_from(bytes, c3, m, idx, acc.push(first), r3, end);
            lemma_methods_of_cons(vs, n, running as nat);
            assert(acc.push(first) + methods_of(r3, m, idx as nat) =~= acc + (seq![first] + methods_of(r3, m,
                idx as nat)));
        }
    }
}

/// The class data at `off`, when its four counts and all the values of its four lists can be
/// read one after the other: the static and instance fields are pairs (index difference, access
/// flags) and the direct and virtual methods triples (index difference, access flags, code
/// offset). Each list has as many entries as its count says, the `k`-th index being the sum of
/// the list's first `k + 1` differences (counted from 0 for each list) and the flags and code
/// offsets copied; the data is refused as invalid class data exactly when an index of some list
/// exceeds `u32::MAX`.
pub proof fn lemma_class_data_layout(bytes: Seq<u8>, off: usize, counts: Seq<u32>, c4: usize, sf: Seq<u32>,
    c5: usize, inf: Seq<u32>, c6: usize, dm: Seq<u32>, c7: usize, vm: Seq<u32>, c8: usize)
    requires
        leb_run(bytes, off, 4) == Some((counts, c4)),
        leb_run(bytes, c4, (2 * counts[0]) as nat) == Some((sf, c5)),
        leb_run(bytes, c5, (2 * counts[1]) as nat) == Some((inf, c6)),
        leb_run(bytes, c6, (3 * counts[2]) as nat) == Some((dm, c7)),
        leb_run(bytes, c7, (3 * counts[3]) as nat) == Some((vm, c8)),
    ensures
        ({
            let fits = delta_sum(sf, 2, counts[0] as nat) <= u32::MAX && delta_sum(inf, 2, counts[1] as nat)
                <= u32::MAX && delta_sum(dm, 3, counts[2] as nat) <= u32::MAX && delta_sum(vm, 3, counts[3] as nat)
                <= u32::MAX;
            &&& fits ==> class_data_at(bytes, off) == Ok::<
                (Seq<EncodedField>, Seq<EncodedField>, Seq<EncodedMethod>, Seq<EncodedMethod>),
                ErrorView,
            >((fields_of(sf, counts[0] as nat, 0), fields_of(inf, counts[1] as nat, 0), methods_of(
                dm,
                counts[2] as nat,
                0,
            ), methods_of(vm, counts[3] as nat, 0)))
            &&& !fits ==> class_data_at(bytes, off) matches Err(ErrorView::InvalidClassData { .. })
        }),
{
    reveal_with_fuel(leb_run, 5);
    lemma_leb_run_len(bytes, off, 4);
    lemma_fields_from(bytes, c4, counts[0] as nat, 0, Seq::empty(), sf, c5);
    lemma_fields_from(bytes, c5, counts[1] as nat, 0, Seq::empty(), inf, c6);
    lemma_methods_from(bytes, c6, counts[2] as nat, 0, Seq::empty(), dm, c7);
    lemma_methods_from(bytes, c7, counts[3] as nat, 0, Seq::empty(), vm, c8);
    assert(Seq::<EncodedField>::empty() + fields_of(sf, counts[0] as nat, 0) =~= fields_of(sf, counts[0] as nat, 0));
    assert(Seq::<EncodedField>::empty() + fields_of(inf, counts[1] as nat, 0) =~= fields_of(inf, counts[1] as nat, 0));
    assert(Seq::<EncodedMethod>::empty() + methods_of(dm, counts[2] as nat, 0) =~= methods_of(dm, counts[2] as nat, 0));
    assert(Seq::<EncodedMethod>::empty() + methods_of(vm, counts[3] as nat, 0) =~= methods_of(vm, counts[3] as nat, 0));
}

} // verus!
