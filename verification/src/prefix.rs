use vstd::prelude::*;
use vstd::string::StrSliceExecFns;

verus! {

/// `p` is a prefix of each of the first `n` strings of `strs`.
pub open spec fn common_prefix(p: Seq<char>, strs: Seq<&str>, n: int) -> bool {
    forall|i: int| 0 <= i < n ==> p.is_prefix_of(#[trigger] strs[i]@)
}

/// `p` is a prefix of each of the first `n` strings, and no longer sequence is.
pub open spec fn longest_prefix(p: Seq<char>, strs: Seq<&str>, n: int) -> bool {
    &&& common_prefix(p, strs, n)
    &&& forall|q: Seq<char>| #[trigger] common_prefix(q, strs, n) ==> q.len() <= p.len()
}

/// The longest string that every string of `strs` begins with, the empty string
/// when there are no strings.
pub fn longest_common_prefix(strs: Vec<&str>) -> (res: String)
    ensures
        strs@.len() == 0 ==> res@ == Seq::<char>::empty(),
        strs@.len() > 0 ==> longest_prefix(res@, strs@, strs@.len() as int),
{
    if strs.len() == 0 {
        return String::new();
    }
    let mut prefix: &str = strs[0];
    proof {
        assert forall|q: Seq<char>| #[trigger] common_prefix(q, strs@, 1) implies q.len()
            <= prefix@.len() by {
            assert(q.is_prefix_of(strs@[0]@));
        }
    }
    let mut n: usize = 1;
    while n < strs.len()
        invariant
            1 <= n <= strs@.len(),
            prefix@.is_prefix_of(strs@[0]@),
            longest_prefix(prefix@, strs@, n as int),
        decreases strs@.len() - n,
    {
        let item: &str = strs[n];
        let item_len = item.unicode_len();
        let prefix_len = prefix.unicode_len();
        let mut k: usize = 0;
        while k < item_len && k < prefix_len && item.get_char(k) == prefix.get_char(k)
            invariant
                k <= item_len,
                k <= prefix_len,
                item_len == item@.len(),
                prefix_len == prefix@.len(),
                forall|j: int| 0 <= j < k ==> item@[j] == prefix@[j],
            decreases item_len - k,
        {
            k += 1;
        }
        let shorter = prefix.substring_char(0, k);
        proof {
            assert(shorter@.is_prefix_of(item@));
            assert(shorter@.is_prefix_of(prefix@));
            assert forall|i: int| 0 <= i < n + 1 implies shorter@.is_prefix_of(
                #[trigger] strs@[i]@,
            ) by {
                if i < n {
                    assert(prefix@.is_prefix_of(strs@[i]@));
                }
            }
            assert forall|q: Seq<char>| #[trigger] common_prefix(q, strs@, n + 1) implies q.len()
                <= shorter@.len() by {
                assert(common_prefix(q, strs@, n as int)) by {
                    assert forall|i: int| 0 <= i < n implies q.is_prefix_of(#[trigger] strs@[i]@) by {}
                }
                assert(q.is_prefix_of(strs@[0]@));
                assert(q.is_prefix_of(strs@[n as int]@));
                if q.len() > k {
                    assert(q[k as int] == strs@[0]@[k as int]);
                    assert(prefix@[k as int] == strs@[0]@[k as int]);
                    assert(q[k as int] == item@[k as int]);
                }
            }
        }
        prefix = shorter;
        n += 1;
    }
    prefix.to_owned()
}

} // verus!
