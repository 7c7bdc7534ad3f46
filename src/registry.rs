//! The deduplicating table of format strings: each distinct string gets a
//! 16-bit ID, assigned in order of first registration starting at 1.

use vstd::prelude::*;

verus! {

/// Largest number of strings the table can hold: IDs are 16 bits and 0 is
/// reserved.
pub const MAX_STRINGS: usize = 65535;

/// The table after interning `s` into `v`, and the ID that `s` gets there.
/// The string at position `i` has ID `i + 1`.
pub open spec fn intern_spec(v: Seq<Seq<char>>, s: Seq<char>) -> (Seq<Seq<char>>, int) {
    if v.contains(s) {
        (v, v.index_of(s) + 1)
    } else {
        (v.push(s), v.len() as int + 1)
    }
}

/// The string with ID `id` in `v`, if any.
pub open spec fn resolve_spec(v: Seq<Seq<char>>, id: int) -> Option<Seq<char>> {
    if 1 <= id <= v.len() {
        Some(v[id - 1])
    } else {
        None
    }
}

/// A well-formed table: no string twice, and every ID fits in 16 bits.
pub open spec fn table_wf(v: Seq<Seq<char>>) -> bool {
    v.no_duplicates() && v.len() <= MAX_STRINGS
}

/// The table of registered strings, in order of registration.
pub struct StringRegistry {
    entries: Vec<String>,
}

impl View for StringRegistry {
    type V = Seq<Seq<char>>;

    closed spec fn view(&self) -> Seq<Seq<char>> {
        self.entries@.map_values(|e: String| e@)
    }
}

impl StringRegistry {
    pub open spec fn wf(&self) -> bool {
        table_wf(self@)
    }

    /// An empty table.
    pub fn new() -> (r: Self)
        ensures
            r@ == Seq::<Seq<char>>::empty(),
            r.wf(),
    {
        let r = StringRegistry { entries: Vec::new() };
        assert(r@ =~= Seq::<Seq<char>>::empty());
        r
    }

    /// Number of registered strings.
    pub fn len(&self) -> (r: usize)
        ensures
            r == self@.len(),
    {
        self.entries.len()
    }
}

/// Registers `s` and returns its ID: the existing one if `s` is present,
/// else the next one.
pub fn register_string(reg: &mut StringRegistry, s: &str) -> (r: u16)
    requires
        old(reg).wf(),
        old(reg)@.len() < MAX_STRINGS || old(reg)@.contains(s@),
    ensures
        final(reg).wf(),
        (final(reg)@, r as int) == intern_spec(old(reg)@, s@),
        1 <= r <= final(reg)@.len(),
        final(reg)@[r - 1] == s@,
{
    let owned = s.to_owned();
    let n = reg.entries.len();
    let mut i: usize = 0;
    while i < n
        invariant
            n == reg.entries@.len(),
            n == reg@.len(),
            reg.wf(),
            reg@ == old(reg)@,
            owned@ == s@,
            0 <= i <= n,
            forall|k: int| 0 <= k < i ==> reg@[k] != s@,
        decreases n - i,
    {
        if reg.entries[i] == owned {
            proof {
                assert(reg@[i as int] == reg.entries@[i as int]@);
                assert(reg@[i as int] == s@);
                assert(reg@.contains(s@));
                let j = reg@.index_of(s@);
                assert(reg@[j] == s@);
                assert(j == i as int);
            }
            return (i + 1) as u16;
        }
        i = i + 1;
    }
    proof {
        assert(!reg@.contains(s@));
    }
    let ghost before = reg@;
    reg.entries.push(owned);
    proof {
        assert(reg@ =~= before.push(s@));
        assert forall|a: int, b: int|
            0 <= a < reg@.len() && 0 <= b < reg@.len() && a != b implies reg@[a] != reg@[b] by {
            if a < before.len() && b < before.len() {
            } else if a == before.len() {
                assert(before[b] != s@);
            } else {
                assert(before[a] != s@);
            }
        }
    }
    (n + 1) as u16
}

/// The string registered under `id`; `None` for 0 and for unassigned IDs.
pub fn get_string(reg: &StringRegistry, id: u16) -> (r: Option<&str>)
    ensures
        r is Some <==> resolve_spec(reg@, id as int) is Some,
        r is Some ==> r.unwrap()@ == resolve_spec(reg@, id as int).unwrap(),
{
    if id == 0 || id as usize > reg.entries.len() {
        None
    } else {
        Some(reg.entries[(id - 1) as usize].as_str())
    }
}

/// Interning keeps what was there: the table only grows, stays well formed,
/// and the returned ID is non-zero and names the interned string.
pub proof fn lemma_intern_extends(v: Seq<Seq<char>>, s: Seq<char>)
    requires
        table_wf(v),
        v.len() < MAX_STRINGS || v.contains(s),
    ensures
        v.is_prefix_of(intern_spec(v, s).0),
        table_wf(intern_spec(v, s).0),
        intern_spec(v, s).1 >= 1,
        resolve_spec(intern_spec(v, s).0, intern_spec(v, s).1) == Some(s),
{
    let w = intern_spec(v, s).0;
    if v.contains(s) {
        assert(v =~= w.subrange(0, v.len() as int));
    } else {
        assert(v =~= w.subrange(0, v.len() as int));
        assert forall|a: int, b: int| 0 <= a < w.len() && 0 <= b < w.len() && a != b implies w[a]
            != w[b] by {
            if a < v.len() && b < v.len() {
            } else if a == v.len() {
                assert(v[b] != s);
            } else {
                assert(v[a] != s);
            }
        }
    }
}

/// Interning a string again, after any number of other registrations, gives
/// back the ID it got the first time, and that ID is never 0.
pub proof fn lemma_intern_stable(v: Seq<Seq<char>>, w: Seq<Seq<char>>, s: Seq<char>)
    requires
        table_wf(w),
        intern_spec(v, s).0.is_prefix_of(w),
    ensures
        intern_spec(w, s) == (w, intern_spec(v, s).1),
        intern_spec(v, s).1 >= 1,
{
    let (v1, id) = intern_spec(v, s);
    let k = id - 1;
    if v.contains(s) {
        assert(v[v.index_of(s)] == s);
    }
    assert(v1[k] == s);
    assert(w[k] == v1[k]);
    assert(w.contains(s));
    let j = w.index_of(s);
    assert(w[j] == s);
    assert(j == k);
}

/// Different strings get different IDs, and a string registered for the first
/// time gets an ID greater than every ID given out before.
pub proof fn lemma_intern_distinct(v: Seq<Seq<char>>, s: Seq<char>, t: Seq<char>)
    requires
        table_wf(v),
        v.len() + 2 <= MAX_STRINGS,
        s != t,
    ensures
        intern_spec(v, s).1 != intern_spec(intern_spec(v, s).0, t).1,
        !v.contains(s) ==> forall|u: Seq<char>|
            #[trigger] v.contains(u) ==> intern_spec(v, u).1 < intern_spec(v, s).1,
{
    let (v1, i) = intern_spec(v, s);
    let (v2, j) = intern_spec(v1, t);
    lemma_intern_extends(v, s);
    lemma_intern_extends(v1, t);
    assert(v2[i - 1] == s);
    assert(v2[j - 1] == t);
    assert forall|u: Seq<char>| #[trigger] v.contains(u) implies intern_spec(v, u).1 < v.len() + 1 by {
        assert(v[v.index_of(u)] == u);
    }
}

} // verus!
