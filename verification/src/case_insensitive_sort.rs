//! Sorting names without regard to case.

use crate::text::{chars_of, lowercase_of, texts, to_lowercase};
use crate::vectors::exchange;
use vstd::prelude::*;

verus! {

/// `a` comes strictly before `b` in the order of texts: character by
/// character, by code point, a text before each of its extensions.
pub open spec fn text_before(a: Seq<char>, b: Seq<char>) -> bool
    decreases a.len(),
{
    if b.len() == 0 {
        false
    } else if a.len() == 0 {
        true
    } else if a[0] != b[0] {
        a[0] < b[0]
    } else {
        text_before(a.drop_first(), b.drop_first())
    }
}

/// Of two texts one comes before the other, or they are the same text; and
/// only one of the three holds.
pub proof fn lemma_text_order_total(a: Seq<char>, b: Seq<char>)
    ensures
        text_before(a, b) || a == b || text_before(b, a),
        !(text_before(a, b) && text_before(b, a)),
        !(text_before(a, b) && a == b),
    decreases a.len(),
{
    if a.len() == 0 || b.len() == 0 {
        if a.len() == 0 && b.len() == 0 {
            assert(a =~= b);
        }
    } else if a[0] == b[0] {
        lemma_text_order_total(a.drop_first(), b.drop_first());
        if a.drop_first() == b.drop_first() {
            assert(a =~= seq![a[0]] + a.drop_first());
            assert(b =~= seq![b[0]] + b.drop_first());
        }
        if a == b {
            assert(a.drop_first() == b.drop_first());
        }
    }
}

/// The order of texts is transitive.
pub proof fn lemma_text_order_transitive(a: Seq<char>, b: Seq<char>, c: Seq<char>)
    requires
        text_before(a, b),
        text_before(b, c),
    ensures
        text_before(a, c),
    decreases a.len(),
{
    if a.len() > 0 && a[0] == b[0] && b[0] == c[0] {
        lemma_text_order_transitive(a.drop_first(), b.drop_first(), c.drop_first());
    }
}

/// The name at place `x` of `names` goes before the name at place `y`: its
/// lower-case form comes first, or the two forms are the same and `x` is the
/// earlier place.
pub open spec fn goes_before(names: Seq<Seq<char>>, x: int, y: int) -> bool {
    let key_x = lowercase_of(names[x]);
    let key_y = lowercase_of(names[y]);
    text_before(key_x, key_y) || (key_x == key_y && x < y)
}

/// `after` holds the names of `before`, the name at each place `i` taken
/// from place `order[i]`, and each name goes before those that follow it.
pub open spec fn sorted_by(before: Seq<Seq<char>>, after: Seq<Seq<char>>, order: Seq<int>)
    -> bool {
    &&& order.len() == before.len()
    &&& after.len() == before.len()
    &&& order.no_duplicates()
    &&& forall|i: int| 0 <= i < order.len() ==> 0 <= #[trigger] order[i] < before.len()
    &&& forall|i: int| 0 <= i < order.len() ==> #[trigger] after[i] == before[order[i]]
    &&& forall|i: int, j: int|
        0 <= i < j < order.len() ==> goes_before(before, #[trigger] order[i], #[trigger] order[j])
}

/// `after` is `before` sorted by lower-case form, names with the same
/// lower-case form in the order in which they stood.
pub open spec fn is_stable_sort(before: Seq<Seq<char>>, after: Seq<Seq<char>>) -> bool {
    exists|order: Seq<int>| sorted_by(before, after, order)
}

/// Whether the text `a` comes strictly before the text `b`.
pub fn comes_before(a: &Vec<char>, b: &Vec<char>) -> (r: bool)
    ensures
        r == text_before(a@, b@),
{
    let mut i: usize = 0;
    proof {
        assert(a@.skip(0) =~= a@);
        assert(b@.skip(0) =~= b@);
    }
    while i < a.len() && i < b.len()
        invariant
            i <= a.len(),
            i <= b.len(),
            text_before(a@, b@) == text_before(a@.skip(i as int), b@.skip(i as int)),
        decreases a.len() - i,
    {
        proof {
            assert(a@.skip(i as int)[0] == a@[i as int]);
            assert(b@.skip(i as int)[0] == b@[i as int]);
            assert(a@.skip(i as int).drop_first() =~= a@.skip(i + 1));
            assert(b@.skip(i as int).drop_first() =~= b@.skip(i + 1));
        }
        if a[i] != b[i] {
            return a[i] < b[i];
        }
        i = i + 1;
    }
    i < b.len()
}

/// The lower-case forms of `users`, each as a list of characters.
fn lowercase_keys(users: &Vec<String>) -> (keys: Vec<Vec<char>>)
    ensures
        keys@.len() == users@.len(),
        forall|i: int| 0 <= i < keys@.len() ==> (#[trigger] keys@[i])@ == lowercase_of(users@[i]@),
{
    let mut keys: Vec<Vec<char>> = Vec::new();
    for i in 0..users.len()
        invariant
            keys@.len() == i,
            forall|k: int| 0 <= k < i ==> (#[trigger] keys@[k])@ == lowercase_of(users@[k]@),
    {
        let lower = to_lowercase(users[i].as_str());
        keys.push(chars_of(lower.as_str()));
    }
    keys
}

/// Sorts `users` by their lower-case forms, so that case makes no
/// difference. Names with the same lower-case form keep the order in which
/// they stood.
pub fn sort_usernames(users: &mut Vec<String>)
    ensures
        is_stable_sort(texts(old(users)@), texts(final(users)@)),
{
    let n = users.len();
    let mut keys = lowercase_keys(users);
    let ghost before = texts(users@);
    let ghost mut order: Seq<int> = Seq::new(n as nat, |i: int| i);
    if n < 2 {
        proof {
            assert(sorted_by(before, texts(users@), order));
        }
        return ;
    }
    let mut i: usize = 1;
    while i < n
        invariant
            n == users.len(),
            n == keys.len(),
            n == order.len(),
            n == before.len(),
            1 <= i <= n,
            order.no_duplicates(),
            forall|a: int| 0 <= a < n ==> 0 <= #[trigger] order[a] < n,
            forall|a: int| 0 <= a < n ==> #[trigger] texts(users@)[a] == before[order[a]],
            forall|a: int| 0 <= a < n ==> (#[trigger] keys@[a])@ == lowercase_of(before[order[a]]),
            forall|a: int| i <= a < n ==> #[trigger] order[a] == a,
            forall|a: int| 0 <= a < i ==> #[trigger] order[a] < i,
            forall|a: int, b: int|
                0 <= a < b < i ==> goes_before(before, #[trigger] order[a], #[trigger] order[b]),
        decreases n - i,
    {
        let mut j: usize = i;
        loop
            invariant
                n == users.len(),
                n == keys.len(),
                n == order.len(),
                n == before.len(),
                j <= i < n,
                order.no_duplicates(),
                forall|a: int| 0 <= a < n ==> 0 <= #[trigger] order[a] < n,
                forall|a: int| 0 <= a < n ==> #[trigger] texts(users@)[a] == before[order[a]],
                forall|a: int|
                    0 <= a < n ==> (#[trigger] keys@[a])@ == lowercase_of(before[order[a]]),
                forall|a: int| i < a < n ==> #[trigger] order[a] == a,
                order[j as int] == i,
                forall|a: int| 0 <= a <= i && a != j ==> #[trigger] order[a] < i,
                forall|a: int, b: int|
                    0 <= a < b <= i && a != j && b != j ==> goes_before(
                        before,
                        #[trigger] order[a],
                        #[trigger] order[b],
                    ),
                forall|b: int|
                    j < b <= i ==> goes_before(before, order[j as int], #[trigger] order[b]),
            ensures
                n == users.len(),
                n == keys.len(),
                n == order.len(),
                order.no_duplicates(),
                forall|a: int| 0 <= a < n ==> 0 <= #[trigger] order[a] < n,
                forall|a: int| 0 <= a < n ==> #[trigger] texts(users@)[a] == before[order[a]],
                forall|a: int|
                    0 <= a < n ==> (#[trigger] keys@[a])@ == lowercase_of(before[order[a]]),
                forall|a: int| i < a < n ==> #[trigger] order[a] == a,
                forall|a: int| 0 <= a <= i ==> #[trigger] order[a] <= i,
                forall|a: int, b: int|
                    0 <= a < b <= i ==> goes_before(
                        before,
                        #[trigger] order[a],
                        #[trigger] order[b],
                    ),
            decreases j,
        {
            if j == 0 || !comes_before(&keys[j], &keys[j - 1]) {
                proof {
                    assert forall|a: int, b: int| 0 <= a < b <= i implies goes_before(
                        before,
                        #[trigger] order[a],
                        #[trigger] order[b],
                    ) by {
                        if b == j {
                            let here = lowercase_of(before[order[j as int]]);
                            let left = lowercase_of(before[order[j - 1]]);
                            lemma_text_order_total(left, here);
                            assert(order[j - 1] < i);
                            assert(goes_before(before, order[j - 1], order[j as int]));
                            if a < j - 1 {
                                assert(goes_before(before, order[a], order[j - 1]));
                                lemma_goes_before_transitive(
                                    before,
                                    order[a],
                                    order[j - 1],
                                    order[j as int],
                                );
                            }
                        }
                    }
                }
                break ;
            }
            let ghost was = order;
            let ghost users_before = users@;
            let ghost keys_before = keys@;
            exchange(users, j - 1, j);
            exchange(&mut keys, j - 1, j);
            proof {
                order = was.update(j - 1, was[j as int]).update(j as int, was[j - 1]);
                assert forall|a: int| 0 <= a < n implies #[trigger] texts(users@)[a]
                    == before[order[a]] by {
                    assert(texts(users_before)[a] == before[was[a]]);
                    assert(texts(users_before)[j as int] == before[was[j as int]]);
                    assert(texts(users_before)[j - 1] == before[was[j - 1]]);
                }
                assert forall|a: int| 0 <= a < n implies (#[trigger] keys@[a])@ == lowercase_of(
                    before[order[a]],
                ) by {
                    assert(keys_before[a]@ == lowercase_of(before[was[a]]));
                    assert(keys_before[j as int]@ == lowercase_of(before[was[j as int]]));
                    assert(keys_before[j - 1]@ == lowercase_of(before[was[j - 1]]));
                }
                assert(order.no_duplicates()) by {
                    assert forall|a: int, b: int|
                        0 <= a < order.len() && 0 <= b < order.len() && a != b implies order[a]
                        != order[b] by {
                        let ua = if a == j {
                            j - 1
                        } else if a == j - 1 {
                            j as int
                        } else {
                            a
                        };
                        let ub = if b == j {
                            j - 1
                        } else if b == j - 1 {
                            j as int
                        } else {
                            b
                        };
                        assert(order[a] == was[ua] && order[b] == was[ub]);
                        assert(was[ua] != was[ub]);
                    }
                }
                assert forall|a: int, b: int|
                    0 <= a < b <= i && a != j - 1 && b != j - 1 implies goes_before(
                    before,
                    #[trigger] order[a],
                    #[trigger] order[b],
                ) by {
                    if b == j {
                        assert(goes_before(before, was[a], was[j - 1]));
                    } else if a == j {
                        assert(goes_before(before, was[j - 1], was[b]));
                    } else {
                        assert(goes_before(before, was[a], was[b]));
                    }
                }
                assert forall|b: int| j - 1 < b <= i implies goes_before(
                    before,
                    order[j - 1],
                    #[trigger] order[b],
                ) by {
                    if b == j {
                        assert(text_before(
                            lowercase_of(before[was[j as int]]),
                            lowercase_of(before[was[j - 1]]),
                        ));
                    } else {
                        assert(goes_before(before, was[j as int], was[b]));
                    }
                }
            }
            j = j - 1;
        }
        i = i + 1;
    }
    proof {
        assert(sorted_by(before, texts(users@), order));
    }
}

/// Going before is transitive.
proof fn lemma_goes_before_transitive(names: Seq<Seq<char>>, x: int, y: int, z: int)
    requires
        goes_before(names, x, y),
        goes_before(names, y, z),
    ensures
        goes_before(names, x, z),
{
    let key_x = lowercase_of(names[x]);
    let key_y = lowercase_of(names[y]);
    let key_z = lowercase_of(names[z]);
    if text_before(key_x, key_y) && text_before(key_y, key_z) {
        lemma_text_order_transitive(key_x, key_y, key_z);
    }
}

} // verus!
