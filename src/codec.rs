//! Splitting a serialized message into numbered fragments and joining them
//! back.

use vstd::prelude::*;
use crate::packet::{Fragment, FRAGMENT_DSIZE};

verus! {

/// Number of fragments for `len` bytes: `ceil(len / FRAGMENT_DSIZE)`.
pub open spec fn n_fragments(len: nat) -> nat {
    (len + FRAGMENT_DSIZE - 1) as nat / FRAGMENT_DSIZE as nat
}

pub open spec fn min_int(a: int, b: int) -> int {
    if a < b {
        a
    } else {
        b
    }
}

/// The bytes of `b` that fragment `i` carries.
pub open spec fn chunk(b: Seq<u8>, i: int) -> Seq<u8> {
    b.subrange(i * FRAGMENT_DSIZE, min_int((i + 1) * FRAGMENT_DSIZE, b.len() as int))
}

/// The payloads of `fs`, joined in order.
pub open spec fn concat_payloads(fs: Seq<Fragment>) -> Seq<u8>
    decreases fs.len(),
{
    if fs.len() == 0 {
        Seq::empty()
    } else {
        concat_payloads(fs.drop_last()) + fs.last().payload()
    }
}

/// `fs` is the fragment set of the bytes `b`: fragment `i` carries chunk `i`,
/// zero padded, and every fragment knows the total.
pub open spec fn fragments_of(b: Seq<u8>, fs: Seq<Fragment>) -> bool {
    &&& fs.len() == n_fragments(b.len())
    &&& forall|i: int|
        #![trigger fs[i]]
        0 <= i < fs.len() ==> {
            &&& fs[i].wf()
            &&& fs[i].fragment_index == i
            &&& fs[i].total_n_fragments == fs.len()
            &&& fs[i].length == chunk(b, i).len()
            &&& fs[i].payload() == chunk(b, i)
            &&& forall|j: int|
                fs[i].length <= j < FRAGMENT_DSIZE ==> #[trigger] fs[i].data@[j] == 0
        }
}

proof fn lemma_n_fragments(len: nat, k: nat)
    ensures
        k < n_fragments(len) <==> k * FRAGMENT_DSIZE < len,
        n_fragments(len) * FRAGMENT_DSIZE >= len,
        n_fragments(len) == 0 ==> len == 0,
        len > 0 ==> (n_fragments(len) - 1) * FRAGMENT_DSIZE < len,
{
    let d = FRAGMENT_DSIZE as nat;
    let n = n_fragments(len);
    assert(n * d <= len + d - 1 < n * d + d) by (nonlinear_arith)
        requires
            d > 0,
            n == (len + d - 1) as nat / d,
    ;
    assert(k < n <==> k * d < len) by (nonlinear_arith)
        requires
            n * d <= len + d - 1 < n * d + d,
            d > 0,
    ;
    if len > 0 {
        assert((n - 1) * d < len) by (nonlinear_arith)
            requires
                n * d <= len + d - 1,
                d > 0,
                len > 0,
        ;
    }
}

proof fn lemma_concat_prefix(b: Seq<u8>, fs: Seq<Fragment>, k: int)
    requires
        0 <= k <= fs.len(),
        forall|i: int| 0 <= i < k ==> #[trigger] fs[i].payload() == chunk(b, i),
        forall|i: int| 0 <= i < k ==> #[trigger] (i * FRAGMENT_DSIZE) < b.len(),
    ensures
        concat_payloads(fs.subrange(0, k)) == b.subrange(0, min_int(k * FRAGMENT_DSIZE, b.len() as int)),
    decreases k,
{
    if k == 0 {
        assert(concat_payloads(fs.subrange(0, 0)) =~= b.subrange(0, 0));
    } else {
        lemma_concat_prefix(b, fs, k - 1);
        assert(fs.subrange(0, k).drop_last() =~= fs.subrange(0, k - 1));
        assert(fs.subrange(0, k).last() == fs[k - 1]);
        assert((k - 1) * FRAGMENT_DSIZE < b.len());
        assert(k * FRAGMENT_DSIZE == (k - 1) * FRAGMENT_DSIZE + FRAGMENT_DSIZE);
        assert(b.subrange(0, min_int((k - 1) * FRAGMENT_DSIZE, b.len() as int)) + chunk(b, k - 1)
            =~= b.subrange(0, min_int(k * FRAGMENT_DSIZE, b.len() as int)));
    }
}

/// Joining the fragments of a byte string gives the byte string back.
pub proof fn lemma_codec_round_trip(b: Seq<u8>, fs: Seq<Fragment>)
    requires
        fragments_of(b, fs),
    ensures
        concat_payloads(fs) == b,
{
    let n = fs.len();
    lemma_n_fragments(b.len(), 0);
    assert forall|i: int| 0 <= i < n implies #[trigger] (i * FRAGMENT_DSIZE) < b.len() by {
        lemma_n_fragments(b.len(), i as nat);
    }
    lemma_concat_prefix(b, fs, n as int);
    assert(fs.subrange(0, n as int) =~= fs);
    assert(b.subrange(0, min_int(n * FRAGMENT_DSIZE, b.len() as int)) =~= b);
}

/// Splits `bytes` into fragments of `FRAGMENT_DSIZE` bytes; the last one may
/// be shorter. No bytes give no fragments.
pub fn split_into_fragments(bytes: &Vec<u8>) -> (r: Vec<Fragment>)
    requires
        bytes@.len() + FRAGMENT_DSIZE <= usize::MAX,
    ensures
        fragments_of(bytes@, r@),
        concat_payloads(r@) == bytes@,
{
    let len = bytes.len();
    let n: usize = (len + FRAGMENT_DSIZE - 1) / FRAGMENT_DSIZE;
    let mut fragments: Vec<Fragment> = Vec::new();
    let mut idx: usize = 0;
    proof {
        lemma_n_fragments(len as nat, 0);
        assert(n * FRAGMENT_DSIZE <= len + FRAGMENT_DSIZE) by (nonlinear_arith)
            requires
                n == (len + FRAGMENT_DSIZE - 1) as nat / FRAGMENT_DSIZE as nat,
        ;
    }
    while idx < n
        invariant
            idx <= n,
            n == n_fragments(len as nat),
            n * FRAGMENT_DSIZE <= len + FRAGMENT_DSIZE,
            len == bytes@.len(),
            len + FRAGMENT_DSIZE <= usize::MAX,
            fragments@.len() == idx,
            forall|i: int|
                #![trigger fragments@[i]]
                0 <= i < idx ==> {
                    &&& fragments@[i].wf()
                    &&& fragments@[i].fragment_index == i
                    &&& fragments@[i].total_n_fragments == n
                    &&& fragments@[i].length == chunk(bytes@, i).len()
                    &&& fragments@[i].payload() == chunk(bytes@, i)
                    &&& forall|j: int|
                        fragments@[i].length <= j < FRAGMENT_DSIZE ==> #[trigger] fragments@[i].data@[j] == 0
                },
        decreases n - idx,
    {
        proof {
            lemma_n_fragments(len as nat, idx as nat);
            assert(idx * FRAGMENT_DSIZE + FRAGMENT_DSIZE <= n * FRAGMENT_DSIZE) by (nonlinear_arith)
                requires
                    idx < n,
            ;
        }
        let start: usize = idx * FRAGMENT_DSIZE;
        let end: usize = if start + FRAGMENT_DSIZE < len {
            start + FRAGMENT_DSIZE
        } else {
            len
        };
        let mut data: Vec<u8> = Vec::new();
        let mut j: usize = start;
        while j < end
            invariant
                start <= j <= end <= len,
                len == bytes@.len(),
                data@ == bytes@.subrange(start as int, j as int),
            decreases end - j,
        {
            data.push(bytes[j]);
            j = j + 1;
            proof {
                assert(data@ =~= bytes@.subrange(start as int, j as int));
            }
        }
        while data.len() < FRAGMENT_DSIZE
            invariant
                start <= end <= len,
                end <= start + FRAGMENT_DSIZE,
                len == bytes@.len(),
                data@.len() <= FRAGMENT_DSIZE,
                end - start <= data@.len(),
                data@.subrange(0, end - start) == bytes@.subrange(start as int, end as int),
                forall|k: int| end - start <= k < data@.len() ==> #[trigger] data@[k] == 0,
            decreases FRAGMENT_DSIZE - data@.len(),
        {
            let ghost old_data = data@;
            data.push(0);
            proof {
                assert(data@.subrange(0, end - start) =~= old_data.subrange(0, end - start));
            }
        }
        let fragment = Fragment {
            fragment_index: idx as u64,
            total_n_fragments: n as u64,
            length: (end - start) as u8,
            data,
        };
        proof {
            assert(fragment.payload() =~= chunk(bytes@, idx as int));
        }
        fragments.push(fragment);
        idx = idx + 1;
    }
    proof {
        assert(fragments_of(bytes@, fragments@));
        lemma_codec_round_trip(bytes@, fragments@);
    }
    fragments
}

/// Joins the payloads of `fragments` in the order given.
pub fn compose_fragments(fragments: &Vec<Fragment>) -> (r: Vec<u8>)
    requires
        forall|i: int| 0 <= i < fragments@.len() ==> #[trigger] fragments@[i].length <= fragments@[i].data@.len(),
    ensures
        r@ == concat_payloads(fragments@),
{
    let mut out: Vec<u8> = Vec::new();
    let mut i: usize = 0;
    while i < fragments.len()
        invariant
            i <= fragments@.len(),
            forall|k: int| 0 <= k < fragments@.len() ==> #[trigger] fragments@[k].length <= fragments@[k].data@.len(),
            out@ == concat_payloads(fragments@.subrange(0, i as int)),
        decreases fragments@.len() - i,
    {
        let f = &fragments[i];
        let mut j: usize = 0;
        let ghost before = out@;
        while j < f.length as usize
            invariant
                j <= f.length,
                f.length <= f.data@.len(),
                out@ == before + f.data@.subrange(0, j as int),
            decreases f.length - j,
        {
            out.push(f.data[j]);
            j = j + 1;
            proof {
                assert(out@ =~= before + f.data@.subrange(0, j as int));
            }
        }
        proof {
            assert(fragments@.subrange(0, i + 1).drop_last() =~= fragments@.subrange(0, i as int));
        }
        i = i + 1;
    }
    proof {
        assert(fragments@.subrange(0, i as int) =~= fragments@);
    }
    out
}

} // verus!
