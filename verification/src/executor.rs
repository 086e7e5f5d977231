//! Backend-specific output files, keyed by a short logical name and kept in
//! name order.

use std::path::PathBuf;
use vstd::prelude::*;

verus! {

/// Whether `a` sorts before `b`: lexicographic order of characters, a
/// proper prefix first (the order of `String`'s `Ord`).
pub open spec fn name_lt(a: Seq<char>, b: Seq<char>) -> bool
    decreases a.len(),
{
    if a.len() == 0 {
        b.len() > 0
    } else if b.len() == 0 {
        false
    } else if a[0] != b[0] {
        a[0] < b[0]
    } else {
        name_lt(a.drop_first(), b.drop_first())
    }
}

/// Exactly one of `a < b`, `a == b`, `b < a` holds.
pub proof fn lemma_name_lt_trichotomy(a: Seq<char>, b: Seq<char>)
    ensures
        a == b || name_lt(a, b) || name_lt(b, a),
        !(name_lt(a, b) && name_lt(b, a)),
        name_lt(a, b) ==> a != b,
    decreases a.len(),
{
    if a.len() > 0 && b.len() > 0 && a[0] == b[0] {
        lemma_name_lt_trichotomy(a.drop_first(), b.drop_first());
        if a.drop_first() == b.drop_first() {
            assert(a =~= seq![a[0]] + a.drop_first());
            assert(b =~= seq![b[0]] + b.drop_first());
        }
    } else if a.len() == 0 && b.len() == 0 {
        assert(a =~= b);
    }
}

/// The order is transitive.
pub proof fn lemma_name_lt_transitive(a: Seq<char>, b: Seq<char>, c: Seq<char>)
    requires
        name_lt(a, b),
        name_lt(b, c),
    ensures
        name_lt(a, c),
    decreases a.len(),
{
    if a.len() > 0 && b.len() > 0 && c.len() > 0 && a[0] == b[0] && b[0] == c[0] {
        lemma_name_lt_transitive(a.drop_first(), b.drop_first(), c.drop_first());
    }
}

/// Whether `a` sorts before `b`.
fn less(a: &Vec<char>, b: &Vec<char>) -> (r: bool)
    ensures
        r == name_lt(a@, b@),
{
    let mut i: usize = 0;
    assert(a@.skip(0) =~= a@);
    assert(b@.skip(0) =~= b@);
    while i < a.len() && i < b.len() && a[i] == b[i]
        invariant
            i <= a.len(),
            i <= b.len(),
            name_lt(a@, b@) == name_lt(a@.skip(i as int), b@.skip(i as int)),
        decreases a.len() - i,
    {
        assert(a@.skip(i as int).drop_first() =~= a@.skip(i + 1));
        assert(b@.skip(i as int).drop_first() =~= b@.skip(i + 1));
        i = i + 1;
    }
    if i == a.len() {
        i < b.len()
    } else if i == b.len() {
        false
    } else {
        assert(a@.skip(i as int)[0] == a@[i as int]);
        assert(b@.skip(i as int)[0] == b@[i as int]);
        a[i] < b[i]
    }
}

/// The path of the first entry named `name`.
pub open spec fn find_path(es: Seq<(Seq<char>, PathBuf)>, name: Seq<char>) -> Option<PathBuf>
    decreases es.len(),
{
    if es.len() == 0 {
        None
    } else if es[0].0 == name {
        Some(es[0].1)
    } else {
        find_path(es.drop_first(), name)
    }
}

proof fn lemma_find_at(es: Seq<(Seq<char>, PathBuf)>, i: int)
    requires
        0 <= i < es.len(),
        forall|k: int| 0 <= k < i ==> (#[trigger] es[k]).0 != es[i].0,
    ensures
        find_path(es, es[i].0) == Some(es[i].1),
    decreases i,
{
    if i > 0 {
        assert(es[0].0 != es[i].0);
        assert forall|k: int| 0 <= k < i - 1 implies (#[trigger] es.drop_first()[k]).0
            != es.drop_first()[i - 1].0 by {
            assert(es.drop_first()[k] == es[k + 1]);
        }
        lemma_find_at(es.drop_first(), i - 1);
    }
}

proof fn lemma_find_none(es: Seq<(Seq<char>, PathBuf)>, name: Seq<char>)
    requires
        forall|k: int| 0 <= k < es.len() ==> (#[trigger] es[k]).0 != name,
    ensures
        find_path(es, name) is None,
    decreases es.len(),
{
    if es.len() > 0 {
        assert(es[0].0 != name);
        assert forall|k: int| 0 <= k < es.len() - 1 implies (#[trigger] es.drop_first()[k]).0
            != name by {
            assert(es.drop_first()[k] == es[k + 1]);
        }
        lemma_find_none(es.drop_first(), name);
    }
}

proof fn lemma_find_update(es: Seq<(Seq<char>, PathBuf)>, i: int, p: PathBuf, n: Seq<char>)
    requires
        0 <= i < es.len(),
        n != es[i].0,
    ensures
        find_path(es.update(i, (es[i].0, p)), n) == find_path(es, n),
    decreases es.len(),
{
    let u = es.update(i, (es[i].0, p));
    if i > 0 {
        assert(u.drop_first() =~= es.drop_first().update(i - 1, (es.drop_first()[i - 1].0, p)));
        lemma_find_update(es.drop_first(), i - 1, p, n);
    } else {
        assert(u.drop_first() =~= es.drop_first());
    }
}

proof fn lemma_find_insert(es: Seq<(Seq<char>, PathBuf)>, i: int, x: (Seq<char>, PathBuf), n: Seq<char>)
    requires
        0 <= i <= es.len(),
        n != x.0,
    ensures
        find_path(es.insert(i, x), n) == find_path(es, n),
    decreases es.len(),
{
    let u = es.insert(i, x);
    if i > 0 {
        assert(u.drop_first() =~= es.drop_first().insert(i - 1, x));
        lemma_find_insert(es.drop_first(), i - 1, x, n);
    } else {
        assert(u.drop_first() =~= es);
    }
}

/// Whether the name of entry `i` sorts before `key`.
fn name_before(files: &Vec<(String, PathBuf)>, i: usize, key: &Vec<char>) -> (r: bool)
    requires
        i < files@.len(),
    ensures
        r == name_lt(files_view(files@)[i as int].0, key@),
{
    let cur = crate::text::chars_of(files[i].0.as_str());
    less(&cur, key)
}

/// Backend-specific output files, keyed by a short logical name (e.g.
/// `"store"`, `"latency.svg"`).
#[derive(Debug)]
pub struct Artifacts {
    files: Vec<(String, PathBuf)>,
}

/// The entries of a list of named files.
pub open spec fn files_view(files: Seq<(String, PathBuf)>) -> Seq<(Seq<char>, PathBuf)> {
    Seq::new(files.len(), |i: int| (files[i].0@, files[i].1))
}

/// Strictly increasing names.
pub open spec fn sorted_names(es: Seq<(Seq<char>, PathBuf)>) -> bool {
    forall|i: int, j: int| 0 <= i < j < es.len() ==> name_lt(#[trigger] es[i].0, #[trigger] es[j].0)
}

impl Artifacts {
    /// The `(name, path)` entries, in name order.
    pub closed spec fn entries(&self) -> Seq<(Seq<char>, PathBuf)> {
        files_view(self.files@)
    }

    /// The entries are in strictly increasing name order (so each name
    /// occurs once).
    pub open spec fn wf(&self) -> bool {
        sorted_names(self.entries())
    }

    /// Every artifact set keeps its entries in strictly increasing name order.
    #[verifier::type_invariant]
    spec fn names_sorted(self) -> bool {
        sorted_names(files_view(self.files@))
    }

    /// The path recorded under a name.
    pub open spec fn lookup(&self, name: Seq<char>) -> Option<PathBuf> {
        find_path(self.entries(), name)
    }

    /// An empty artifact set.
    pub fn new() -> (a: Artifacts)
        ensures
            a.wf(),
            a.entries().len() == 0,
    {
        Artifacts { files: Vec::new() }
    }

    /// Record an artifact path under `name`, replacing any path already
    /// recorded under it.
    pub fn insert(&mut self, name: String, path: PathBuf)
        ensures
            final(self).wf(),
            final(self).lookup(name@) == Some(path),
            forall|n: Seq<char>| n != name@ ==> #[trigger] final(self).lookup(n) == old(self).lookup(n),
    {
        proof {
            use_type_invariant(&*self);
        }
        let key = crate::text::chars_of(name.as_str());
        let mut files: Vec<(String, PathBuf)> = Vec::new();
        std::mem::swap(&mut files, &mut self.files);
        let ghost es = files_view(files@);
        assert(es == old(self).entries());
        let mut i: usize = 0;
        while i < files.len() && name_before(&files, i, &key)
            invariant
                i <= files.len(),
                es == files_view(files@),
                sorted_names(es),
                key@ == name@,
                forall|k: int| 0 <= k < i ==> name_lt(#[trigger] es[k].0, key@),
            decreases files.len() - i,
        {
            i = i + 1;
        }
        let found = if i < files.len() {
            let cur = crate::text::chars_of(files[i].0.as_str());
            assert(es[i as int].0 == cur@);
            !less(&key, &cur)
        } else {
            false
        };
        proof {
            assert forall|k: int| 0 <= k < i implies (#[trigger] es[k]).0 != name@ by {
                lemma_name_lt_trichotomy(es[k].0, name@);
            }
        }
        if found {
            proof {
                lemma_name_lt_trichotomy(es[i as int].0, name@);
            }
            files.set(i, (name, path));
            proof {
                let u = es.update(i as int, (es[i as int].0, path));
                assert(files_view(files@) =~= u);
                lemma_find_at(u, i as int);
                assert forall|n: Seq<char>| n != name@ implies #[trigger] find_path(u, n) == find_path(es, n) by {
                    lemma_find_update(es, i as int, path, n);
                }
            }
        } else {
            let ghost x = (name@, path);
            proof {
                if i < es.len() {
                    lemma_name_lt_trichotomy(es[i as int].0, name@);
                    assert(name_lt(name@, es[i as int].0));
                    assert forall|k: int| i <= k < es.len() implies name_lt(name@, #[trigger] es[k].0) by {
                        if k > i {
                            lemma_name_lt_transitive(name@, es[i as int].0, es[k].0);
                        }
                    }
                }
            }
            files.insert(i, (name, path));
            proof {
                let u = es.insert(i as int, x);
                assert(files_view(files@) =~= u);
                assert forall|a: int, b: int| 0 <= a < b < u.len() implies name_lt(#[trigger] u[a].0, #[trigger] u[b].0) by {
                    if b < i {
                    } else if b == i {
                    } else if a < i {
                        lemma_name_lt_transitive(u[a].0, name@, u[b].0);
                    } else if a == i {
                    } else {
                        assert(u[a] == es[a - 1]);
                        assert(u[b] == es[b - 1]);
                    }
                }
                assert forall|k: int| 0 <= k < i implies (#[trigger] u[k]).0 != u[i as int].0 by {
                    assert(u[k] == es[k]);
                }
                lemma_find_at(u, i as int);
                assert forall|n: Seq<char>| n != name@ implies #[trigger] find_path(u, n) == find_path(es, n) by {
                    lemma_find_insert(es, i as int, x, n);
                }
            }
        }
        self.files = files;
    }


    /// Look up an artifact path by name.
    pub fn get(&self, name: &str) -> (r: Option<&PathBuf>)
        ensures
            match r {
                Some(p) => self.lookup(name@) == Some(*p),
                None => self.lookup(name@) is None,
            },
    {
        let key = crate::text::chars_of(name);
        let ghost es = self.entries();
        let mut i: usize = 0;
        while i < self.files.len()
            invariant
                i <= self.files.len(),
                es == self.entries(),
                key@ == name@,
                forall|k: int| 0 <= k < i ==> (#[trigger] es[k]).0 != name@,
            decreases self.files.len() - i,
        {
            let cur = crate::text::chars_of(self.files[i].0.as_str());
            assert(es[i as int].0 == cur@);
            proof {
                lemma_name_lt_trichotomy(cur@, key@);
            }
            if !less(&cur, &key) && !less(&key, &cur) {
                proof {
                    lemma_find_at(es, i as int);
                }
                return Some(&self.files[i].1);
            }
            i = i + 1;
        }
        proof {
            lemma_find_none(es, name@);
        }
        None
    }

    /// The `(name, path)` entries, in name order.
    pub fn iter(&self) -> (r: &[(String, PathBuf)])
        ensures
            files_view(r@) == self.entries(),
    {
        self.files.as_slice()
    }
}

impl Clone for Artifacts {
    /// A copy with the same names, in the same order (each path is copied
    /// by `PathBuf::clone`).
    fn clone(&self) -> (r: Artifacts)
        ensures
            r.entries().len() == self.entries().len(),
            forall|i: int| 0 <= i < r.entries().len() ==> (#[trigger] r.entries()[i]).0 == self.entries()[i].0,
    {
        proof {
            use_type_invariant(self);
        }
        let ghost es = files_view(self.files@);
        let mut files: Vec<(String, PathBuf)> = Vec::new();
        let mut i: usize = 0;
        while i < self.files.len()
            invariant
                i <= self.files@.len(),
                es == files_view(self.files@),
                sorted_names(es),
                files@.len() == i,
                forall|k: int| 0 <= k < i ==> (#[trigger] files@[k]).0@ == es[k].0,
            decreases self.files.len() - i,
        {
            files.push((self.files[i].0.clone(), self.files[i].1.clone()));
            i = i + 1;
        }
        proof {
            let u = files_view(files@);
            assert forall|a: int, b: int| 0 <= a < b < u.len() implies name_lt(#[trigger] u[a].0, #[trigger] u[b].0) by {
                assert(u[a].0 == es[a].0 && u[b].0 == es[b].0);
            }
        }
        Artifacts { files }
    }
}

} // verus!
