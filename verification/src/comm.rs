use vstd::prelude::*;
use vstd::hash_set::StringHashSet;

verus! {

/// The text of each line of `lines`.
pub open spec fn texts(lines: Seq<String>) -> Seq<Seq<char>> {
    Seq::new(lines.len(), |i: int| lines[i]@)
}

/// Line `j` of `second` is reported: it occurs in `first` and nowhere earlier in `second`.
pub open spec fn reported(first: Seq<Seq<char>>, second: Seq<Seq<char>>, j: int) -> bool {
    first.contains(second[j]) && !second.take(j).contains(second[j])
}

/// The reported lines among the first `n` lines of `second`, in their order.
pub open spec fn common(first: Seq<Seq<char>>, second: Seq<Seq<char>>, n: int) -> Seq<Seq<char>>
    decreases n,
{
    if n <= 0 {
        Seq::empty()
    } else if reported(first, second, n - 1) {
        common(first, second, n - 1).push(second[n - 1])
    } else {
        common(first, second, n - 1)
    }
}

/// The lines of `second` that also occur in `first`, each once, in the order in which
/// `second` first has them.
pub fn common_lines(first: &Vec<String>, second: &Vec<String>) -> (result: Vec<String>)
    ensures
        texts(result@) == common(texts(first@), texts(second@), second@.len() as int),
{
    let mut set = StringHashSet::new();
    let mut result: Vec<String> = Vec::new();
    let ghost lines1 = texts(first@);
    let ghost lines2 = texts(second@);

    let mut i: usize = 0;
    while i < first.len()
        invariant
            i <= first@.len(),
            lines1 == texts(first@),
            forall|x: Seq<char>| #[trigger] set@.contains(x) <==> lines1.take(i as int).contains(x),
        decreases first@.len() - i,
    {
        let s = first[i].clone();
        set.insert(s);
        proof {
            let done = lines1.take(i as int);
            let now = lines1.take(i + 1);
            assert(now =~= done.push(lines1[i as int]));
            assert forall|x: Seq<char>| #[trigger] set@.contains(x) <==> now.contains(x) by {
                if done.contains(x) {
                    let m = choose|m: int| 0 <= m < done.len() && done[m] == x;
                    assert(now[m] == x);
                }
                if x == lines1[i as int] {
                    assert(now[i as int] == x);
                }
                if now.contains(x) {
                    let m = choose|m: int| 0 <= m < now.len() && now[m] == x;
                    if m < i {
                        assert(done[m] == x);
                    }
                }
            }
        }
        i += 1;
    }
    proof {
        assert(lines1.take(i as int) =~= lines1);
        assert(texts(result@) =~= common(lines1, lines2, 0));
    }

    let mut j: usize = 0;
    while j < second.len()
        invariant
            j <= second@.len(),
            lines1 == texts(first@),
            lines2 == texts(second@),
            forall|x: Seq<char>| #[trigger]
                set@.contains(x) <==> lines1.contains(x) && !lines2.take(j as int).contains(x),
            texts(result@) == common(lines1, lines2, j as int),
        decreases second@.len() - j,
    {
        let s = &second[j];
        let ghost before = result@;
        let ghost unseen = set@;
        if set.contains(s.as_str()) {
            set.remove(s.as_str());
            result.push(s.clone());
            proof {
                assert(texts(result@) =~= texts(before).push(lines2[j as int]));
            }
        }
        proof {
            let done = lines2.take(j as int);
            let now = lines2.take(j + 1);
            let line = lines2[j as int];
            assert(line == s@);
            assert(now =~= done.push(line));
            assert(unseen.contains(line) <==> lines1.contains(line) && !done.contains(line));
            assert(set@ == if unseen.contains(line) {
                unseen.remove(line)
            } else {
                unseen
            });
            assert forall|x: Seq<char>| #[trigger]
                set@.contains(x) <==> lines1.contains(x) && !now.contains(x) by {
                assert(unseen.contains(x) <==> lines1.contains(x) && !done.contains(x));
                if done.contains(x) {
                    let m = choose|m: int| 0 <= m < done.len() && done[m] == x;
                    assert(now[m] == x);
                }
                if x == line {
                    assert(now[j as int] == x);
                }
                if now.contains(x) {
                    let m = choose|m: int| 0 <= m < now.len() && now[m] == x;
                    if m < j {
                        assert(done[m] == x);
                    }
                }
            }
            assert(reported(lines1, lines2, j as int) == unseen.contains(line));
        }
        j += 1;
    }
    result
}

} // verus!
