//! Which backend reads and which backends write.
//!
//! The registered backends are numbered in the order of their registration.
//! For each of them the command line may give one path to read from and one
//! path to write to. Exactly one backend reads; any number may write, but no
//! two of them to the same path.

use crate::opt_text;
use crate::text::{text_is, to_chars};
use vstd::prelude::*;

verus! {

/// The backend that reads, and the path it reads from.
#[derive(Clone, Debug, PartialEq, Eq)]
pub struct Source {
    pub backend: usize,
    pub path: String,
}

/// The paths that are written to, each with the backend that writes it, in
/// the order of the backends. No path occurs twice.
#[derive(Clone, Debug, PartialEq, Eq)]
pub struct Targets {
    pub mapping: Vec<(String, usize)>,
}

/// What is to be converted from, and what to.
#[derive(Clone, Debug, PartialEq, Eq)]
pub struct BackendSelection {
    pub input: Source,
    pub outputs: Targets,
}

/// Two backends were given one path to write to.
#[derive(Clone, Debug, PartialEq, Eq)]
pub struct Overwrite {
    pub previous: usize,
    pub backend: usize,
    pub path: String,
}

impl View for Targets {
    type V = Seq<(Seq<char>, int)>;

    open spec fn view(&self) -> Seq<(Seq<char>, int)> {
        self.mapping@.map_values(|t: (String, usize)| (t.0@, t.1 as int))
    }
}

/// The paths of a command line, as text.
pub open spec fn path_texts(paths: Seq<Option<String>>) -> Seq<Option<Seq<char>>> {
    paths.map_values(|p: Option<String>| opt_text(p))
}

/// The first backend that was given a path; the number of backends where
/// none was.
pub open spec fn first_given(paths: Seq<Option<Seq<char>>>) -> int
    decreases paths.len(),
{
    if paths.len() == 0 || paths[0] is Some {
        0
    } else {
        1 + first_given(paths.drop_first())
    }
}

/// Whether backends `i` and `j`, in this order, were given the same path.
pub open spec fn clash(paths: Seq<Option<Seq<char>>>, i: int, j: int) -> bool {
    0 <= i < j < paths.len() && paths[i] is Some && paths[i] == paths[j]
}

/// The paths given to the first `n` backends, each with its backend.
pub open spec fn targets(paths: Seq<Option<Seq<char>>>, n: int) -> Seq<(Seq<char>, int)>
    decreases n,
{
    if n <= 0 {
        Seq::empty()
    } else {
        match paths[n - 1] {
            Some(p) => targets(paths, n - 1).push((p, n - 1)),
            None => targets(paths, n - 1),
        }
    }
}

/// [`targets`] holds the paths that were given, and nothing else.
pub proof fn lemma_targets(paths: Seq<Option<Seq<char>>>, n: int)
    requires
        0 <= n <= paths.len(),
    ensures
        forall|k: int|
            0 <= k < targets(paths, n).len() ==> 0 <= (#[trigger] targets(paths, n)[k]).1 < n
                && paths[targets(paths, n)[k].1] == Some(targets(paths, n)[k].0),
        forall|i: int|
            0 <= i < n && (#[trigger] paths[i]) is Some ==> targets(paths, n).contains(
                (paths[i]->Some_0, i),
            ),
    decreases n,
{
    if n > 0 {
        lemma_targets(paths, n - 1);
        let before = targets(paths, n - 1);
        let all = targets(paths, n);
        assert forall|i: int| 0 <= i < n && (#[trigger] paths[i]) is Some implies all.contains(
            (paths[i]->Some_0, i),
        ) by {
            if i < n - 1 {
                let k = choose|k: int|
                    0 <= k < before.len() && before[k] == (paths[i]->Some_0, i);
                assert(all[k] == before[k]);
            } else {
                assert(all[all.len() - 1] == (paths[i]->Some_0, i));
            }
        }
    }
}

impl BackendSelection {
    /// Makes the selection that a command line asks for. `inputs[i]` is the
    /// path that backend `i` was given to read from, `outputs[i]` the one it
    /// was given to write to.
    ///
    /// The first backend with an input path reads. Every backend with an
    /// output path writes, unless two of them were given the same path: the
    /// error then names the first backend that would overwrite what an
    /// earlier one wrote, and that earlier one.
    pub fn from_matches(inputs: &Vec<Option<String>>, outputs: &Vec<Option<String>>) -> (out:
        Result<BackendSelection, Overwrite>)
        requires
            exists|i: int| 0 <= i < inputs.len() && (#[trigger] inputs[i]) is Some,
        ensures
            match out {
                Ok(selection) => {
                    let given = path_texts(inputs@);
                    &&& forall|i: int, j: int| !clash(path_texts(outputs@), i, j)
                    &&& selection.input.backend == first_given(given)
                    &&& given[first_given(given)] == Some(selection.input.path@)
                    &&& selection.outputs@ == targets(path_texts(outputs@), outputs.len() as int)
                },
                Err(e) => {
                    &&& clash(path_texts(outputs@), e.previous as int, e.backend as int)
                    &&& path_texts(outputs@)[e.backend as int] == Some(e.path@)
                    &&& forall|i: int, j: int|
                        j < e.backend ==> !clash(path_texts(outputs@), i, j)
                },
            },
    {
        let ghost given = path_texts(inputs@);
        let ghost wanted = path_texts(outputs@);
        let mut first: usize = 0;
        assert(given.skip(0) =~= given);
        while first < inputs.len() && inputs[first].is_none()
            invariant
                first <= inputs.len(),
                given == path_texts(inputs@),
                first_given(given) == first + first_given(given.skip(first as int)),
                exists|i: int| first <= i < inputs.len() && (#[trigger] inputs[i]) is Some,
            decreases inputs.len() - first,
        {
            proof {
                assert(given.skip(first as int)[0] is None);
                assert(given.skip(first as int).drop_first() =~= given.skip(first as int + 1));
            }
            first += 1;
        }
        assert(given.skip(first as int)[0] is Some);
        let path = match &inputs[first] {
            Some(p) => p.clone(),
            None => String::new(),
        };
        let input = Source { backend: first, path };
        let mut mapping: Vec<(String, usize)> = Vec::new();
        let mut j: usize = 0;
        while j < outputs.len()
            invariant
                j <= outputs.len(),
                wanted == path_texts(outputs@),
                mapping@.map_values(|t: (String, usize)| (t.0@, t.1 as int)) == targets(
                    wanted,
                    j as int,
                ),
                forall|a: int, b: int| b < j ==> !clash(wanted, a, b),
            decreases outputs.len() - j,
        {
            let ghost before = targets(wanted, j as int);
            proof {
                lemma_targets(wanted, j as int);
            }
            match &outputs[j] {
                None => {},
                Some(path) => {
                    let mut k: usize = 0;
                    while k < mapping.len()
                        invariant
                            k <= mapping.len(),
                            j < outputs.len(),
                            wanted == path_texts(outputs@),
                            outputs[j as int] == Some(*path),
                            before == targets(wanted, j as int),
                            mapping@.map_values(|t: (String, usize)| (t.0@, t.1 as int))
                                == before,
                            forall|a: int, b: int| b < j ==> !clash(wanted, a, b),
                            forall|i: int| 0 <= i < k ==> (#[trigger] before[i]).0 != path@,
                            forall|k: int|
                                0 <= k < before.len() ==> 0 <= (#[trigger] before[k]).1 < j
                                    && wanted[before[k].1] == Some(before[k].0),
                        decreases mapping.len() - k,
                    {
                        let taken = to_chars(mapping[k].0.as_str());
                        assert(before[k as int] == (mapping[k as int].0@, mapping[k as int].1 as int));
                        if text_is(&taken, path.as_str()) {
                            let previous = mapping[k].1;
                            assert(wanted[j as int] == opt_text(outputs@[j as int]));
                            assert(clash(wanted, previous as int, j as int));
                            return Err(Overwrite { previous, backend: j, path: path.clone() });
                        }
                        k += 1;
                    }
                    let copy = path.clone();
                    proof {
                        assert forall|a: int| !clash(wanted, a, j as int) by {
                            if clash(wanted, a, j as int) {
                                let i = choose|i: int|
                                    0 <= i < before.len() && before[i] == (wanted[a]->Some_0, a);
                                assert(before[i].0 == path@);
                            }
                        }
                        assert(mapping@.push((copy, j)).map_values(
                            |t: (String, usize)| (t.0@, t.1 as int),
                        ) =~= before.push((path@, j as int)));
                    }
                    mapping.push((copy, j));
                },
            }
            j += 1;
        }
        Ok(BackendSelection { input, outputs: Targets { mapping } })
    }
}

} // verus!
