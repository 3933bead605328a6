//! Which of the options being edited differ from the options in effect.
use vstd::prelude::*;

verus! {

/// The value that the entries of `live` from index `i` on give for `key`: that of the first
/// entry with that key.
pub open spec fn lookup_from(live: Seq<(String, String)>, key: Seq<char>, i: int) -> Option<Seq<char>>
    decreases live.len() - i,
{
    if i < 0 || i >= live.len() {
        None
    } else if live[i].0@ == key {
        Some(live[i].1@)
    } else {
        lookup_from(live, key, i + 1)
    }
}

/// The value that the options `live` give for `key`.
pub open spec fn lookup(live: Seq<(String, String)>, key: Seq<char>) -> Option<Seq<char>> {
    lookup_from(live, key, 0)
}

/// The entries of `pending`, in order, whose value is not the one `live` gives for their key.
pub open spec fn edited(pending: Seq<(String, String)>, live: Seq<(String, String)>) -> Seq<(Seq<char>, Seq<char>)>
    decreases pending.len(),
{
    if pending.len() == 0 {
        Seq::empty()
    } else {
        let rest = edited(pending.drop_last(), live);
        let e = pending.last();
        if lookup(live, e.0@) == Some(e.1@) {
            rest
        } else {
            rest.push((e.0@, e.1@))
        }
    }
}

/// The value that `live` gives for `key`, if any.
fn live_value<'a>(live: &'a Vec<(String, String)>, key: &String) -> (r: Option<&'a String>)
    ensures
        match r {
            Some(v) => lookup(live@, key@) == Some(v@),
            None => lookup(live@, key@) is None,
        },
{
    let n = live.len();
    let mut i: usize = 0;
    while i < n
        invariant
            n == live@.len(),
            i <= n,
            lookup_from(live@, key@, 0) == lookup_from(live@, key@, i as int),
        decreases n - i,
    {
        if live[i].0 == *key {
            return Some(&live[i].1);
        }
        i = i + 1;
    }
    None
}

/// The options of `pending` whose value differs from the one in effect in `live` (an option
/// that `live` lacks counts as changed), or `None` when no option changed. Each list holds the
/// entries of an option map.
pub fn get_edited_options(pending: &Vec<(String, String)>, live: &Vec<(String, String)>) -> (r: Option<
    Vec<(String, String)>,
>)
    ensures
        r is None <==> edited(pending@, live@).len() == 0,
        r matches Some(v) ==> v@.map_values(|e: (String, String)| (e.0@, e.1@)) == edited(pending@, live@),
{
    let mut out: Vec<(String, String)> = Vec::new();
    let n = pending.len();
    let mut k: usize = 0;
    while k < n
        invariant
            n == pending@.len(),
            k <= n,
            out@.map_values(|e: (String, String)| (e.0@, e.1@)) == edited(pending@.take(k as int), live@),
        decreases n - k,
    {
        let ghost before = out@;
        let key = &pending[k].0;
        let value = &pending[k].1;
        let unchanged = match live_value(live, key) {
            Some(v) => *v == *value,
            None => false,
        };
        if !unchanged {
            out.push((key.clone(), value.clone()));
        }
        proof {
            let t = pending@.take(k + 1);
            assert(t.drop_last() =~= pending@.take(k as int));
            assert(t.last() == pending@[k as int]);
            if !unchanged {
                assert(out@ == before.push(pending@[k as int]));
                assert(out@.map_values(|e: (String, String)| (e.0@, e.1@)) =~= before.map_values(
                    |e: (String, String)| (e.0@, e.1@),
                ).push((pending@[k as int].0@, pending@[k as int].1@)));
            }
        }
        k = k + 1;
    }
    proof {
        assert(pending@.take(n as int) =~= pending@);
    }
    if out.len() == 0 {
        None
    } else {
        Some(out)
    }
}

} // verus!
