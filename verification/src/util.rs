//! Small operations on byte strings.

use vstd::prelude::*;

verus! {

/// Appends `data` to `out`.
pub fn append(out: &mut Vec<u8>, data: &[u8])
    ensures
        final(out)@ == old(out)@ + data@,
{
    let mut i: usize = 0;
    while i < data.len()
        invariant
            i <= data@.len(),
            out@ == old(out)@ + data@.subrange(0, i as int),
        decreases data@.len() - i,
    {
        out.push(data[i]);
        i += 1;
    }
    assert(data@.subrange(0, i as int) =~= data@);
}

/// The bytes of `data` from index `from` up to, not including, `to`.
pub fn copy_range(data: &[u8], from: usize, to: usize) -> (out: Vec<u8>)
    requires
        from <= to <= data@.len(),
    ensures
        out@ == data@.subrange(from as int, to as int),
{
    let mut out: Vec<u8> = Vec::new();
    let mut i: usize = from;
    while i < to
        invariant
            from <= i <= to <= data@.len(),
            out@ == data@.subrange(from as int, i as int),
        decreases to - i,
    {
        out.push(data[i]);
        i += 1;
    }
    out
}

/// Whether `data` holds `lit` at index `pos`.
pub fn has_at(data: &[u8], pos: usize, lit: &[u8]) -> (b: bool)
    requires
        pos <= data@.len(),
    ensures
        b == (data@.len() - pos >= lit@.len() && data@.subrange(
            pos as int,
            pos + lit@.len(),
        ) == lit@),
{
    let n = lit.len();
    let len = data.len();
    if len - pos < n {
        return false;
    }
    let mut i: usize = 0;
    while i < n
        invariant
            i <= n,
            n == lit@.len(),
            pos + n <= len == data@.len(),
            forall|j: int| 0 <= j < i ==> data@[pos + j] == lit@[j],
        decreases n - i,
    {
        if data[pos + i] != lit[i] {
            assert(data@.subrange(pos as int, pos + n)[i as int] != lit@[i as int]);
            return false;
        }
        i += 1;
    }
    assert(data@.subrange(pos as int, pos + n) =~= lit@);
    true
}

/// Whether `a` and `b` hold the same bytes.
pub fn same_bytes(a: &[u8], b: &[u8]) -> (r: bool)
    ensures
        r == (a@ == b@),
{
    if a.len() != b.len() {
        return false;
    }
    let r = has_at(a, 0, b);
    assert(a@.subrange(0, a@.len() as int) =~= a@);
    r
}

} // verus!
