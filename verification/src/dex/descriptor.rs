//! Class descriptors and the names derived from them.

use vstd::prelude::*;

use crate::chars::{join, replace_char, replace_chars, split, str_chars, string_from_chars};

verus! {

/// `d` has the shape `L...;` of an object descriptor.
pub open spec fn is_object_shape(d: Seq<char>) -> bool {
    d.len() >= 2 && d[0] == 'L' && d.last() == ';'
}

/// The Java name of a descriptor: `La/b/C;` becomes `a.b.C`; anything else is kept as it is.
pub open spec fn java_name(d: Seq<char>) -> Seq<char> {
    if is_object_shape(d) {
        replace_char(d.subrange(1, d.len() - 1), '/', '.')
    } else {
        d
    }
}

/// Converts a class descriptor to its Java name.
pub fn descriptor_to_java_name(descriptor: &str) -> (r: String)
    ensures
        r@ == java_name(descriptor@),
{
    let d = str_chars(descriptor);
    if d.len() >= 2 && d[0] == 'L' && d[d.len() - 1] == ';' {
        let inner = replace_chars(&d.as_slice()[1..d.len() - 1], '/', '.');
        string_from_chars(inner.as_slice())
    } else {
        string_from_chars(d.as_slice())
    }
}

/// A package segment is obfuscated-looking when it has at most two characters, all lower-case
/// ASCII letters.
pub open spec fn short_lowercase(part: Seq<char>) -> bool {
    part.len() <= 2 && forall|i: int| 0 <= i < part.len() ==> 'a' <= #[trigger] part[i] <= 'z'
}

/// A package segment as it appears in a package shape.
pub open spec fn shaped_segment(part: Seq<char>) -> Seq<char> {
    if short_lowercase(part) {
        seq!['*']
    } else {
        part
    }
}

/// The package shape of a descriptor: the package of its Java name, with each short lower-case
/// segment replaced by `*`; empty for a name without a package.
pub open spec fn package_shape_of(d: Seq<char>) -> Seq<char> {
    let parts = split(java_name(d), '.');
    if parts.len() > 1 {
        join(parts.drop_last().map_values(|p: Seq<char>| shaped_segment(p)), seq!['.'])
    } else {
        Seq::empty()
    }
}

fn is_short_lowercase(part: &Vec<char>) -> (r: bool)
    ensures
        r == short_lowercase(part@),
{
    if part.len() > 2 {
        return false;
    }
    let mut i: usize = 0;
    while i < part.len()
        invariant
            i <= part.len(),
            forall|k: int| 0 <= k < i ==> 'a' <= #[trigger] part@[k] <= 'z',
        decreases part.len() - i,
    {
        if part[i] < 'a' || part[i] > 'z' {
            return false;
        }
        i = i + 1;
    }
    true
}

fn push_shaped(out: &mut Vec<char>, part: &Vec<char>)
    ensures
        final(out)@ == old(out)@ + shaped_segment(part@),
{
    if is_short_lowercase(part) {
        out.push('*');
    } else {
        let mut i: usize = 0;
        while i < part.len()
            invariant
                i <= part.len(),
                out@ == old(out)@ + part@.take(i as int),
            decreases part.len() - i,
        {
            out.push(part[i]);
            i = i + 1;
            assert(out@ =~= old(out)@ + part@.take(i as int));
        }
        assert(part@.take(part@.len() as int) =~= part@);
    }
}

/// Builds the package shape of a descriptor, e.g. `*.*` for `La/b/C;` and `com.example` for
/// `Lcom/example/Foo;`.
pub fn package_shape(descriptor: &str) -> (r: String)
    ensures
        r@ == package_shape_of(descriptor@),
{
    let java = descriptor_to_java_name(descriptor);
    let name = str_chars(java.as_str());
    let ghost f = |p: Seq<char>| shaped_segment(p);
    let mut out: Vec<char> = Vec::new();
    let mut seg: Vec<char> = Vec::new();
    let mut any = false;
    let mut i: usize = 0;
    while i < name.len()
        invariant
            i <= name.len(),
            name@ == java_name(descriptor@),
            split(name@.take(i as int), '.').len() >= 1,
            seg@ == split(name@.take(i as int), '.').last(),
            any == (split(name@.take(i as int), '.').len() > 1),
            !any ==> out@ == Seq::<char>::empty(),
            any ==> out@ == join(split(name@.take(i as int), '.').drop_last().map_values(f), seq!['.']),
            f == (|p: Seq<char>| shaped_segment(p)),
        decreases name.len() - i,
    {
        let c = name[i];
        let ghost prev = name@.take(i as int);
        let ghost next = name@.take(i + 1);
        proof {
            assert(next.drop_last() =~= prev);
            crate::chars::lemma_split_len(prev, '.');
        }
        if c == '.' {
            let ghost parts = split(prev, '.');
            let ghost old_out = out@;
            let ghost old_seg = seg@;
            if any {
                out.push('.');
            }
            push_shaped(&mut out, &seg);
            seg = Vec::new();
            any = true;
            proof {
                let np = split(next, '.');
                assert(np == parts.push(Seq::empty()));
                assert(np.drop_last() =~= parts);
                let m = parts.map_values(f);
                assert(m.last() == shaped_segment(old_seg));
                if parts.len() > 1 {
                    assert(m.drop_last() =~= parts.drop_last().map_values(f));
                    assert(join(m, seq!['.']) == join(m.drop_last(), seq!['.']) + seq!['.'] + m.last());
                    assert(out@ =~= old_out + seq!['.'] + shaped_segment(old_seg));
                } else {
                    assert(m =~= seq![f(parts[0])]);
                    assert(out@ =~= shaped_segment(old_seg));
                }
                assert(out@ == join(np.drop_last().map_values(f), seq!['.']));
            }
        } else {
            seg.push(c);
            proof {
                let parts = split(prev, '.');
                let np = split(next, '.');
                assert(np == parts.update(parts.len() - 1, parts.last().push(c)));
                assert(np.drop_last() =~= parts.drop_last());
            }
        }
        i = i + 1;
    }
    assert(name@.take(name@.len() as int) =~= name@);
    if any {
        string_from_chars(out.as_slice())
    } else {
        String::new()
    }
}

} // verus!
