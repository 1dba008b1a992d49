//! The builder: where builds happen, and the executors it dispatches to.
use vstd::prelude::*;

use crate::reports::pretty::decimal;

verus! {

/// The context executors are initialized with: the build environment.
#[derive(Debug)]
pub struct InitializeContext {
    pub environment: String,
}

/// A chain of executors: `()` at the end, or a pair of an executor's
/// initializer and the rest.
#[derive(Debug)]
pub struct ExecutorPair<E>(pub E);

/// The identifier of a build.
pub type BuildId = u64;

/// Builds packages in environments under `root`.
#[derive(Debug)]
pub struct Builder<B, T> {
    pub root: String,
    pub backend: B,
    pub executors: T,
}

/// `root` joined with the relative path `name`.
pub open spec fn path_join(root: Seq<char>, name: Seq<char>) -> Seq<char> {
    if root.len() == 0 || root.last() == '/' {
        root + name
    } else {
        root + "/"@ + name
    }
}

impl<B> Builder<B, ExecutorPair<()>> {
    /// A builder under `root`, with no executor.
    pub fn new(root: String, backend: B) -> (builder: Self)
        ensures
            builder.root == root,
            builder.backend == backend,
            builder.executors == ExecutorPair(()),
    {
        Builder { root, backend, executors: ExecutorPair(()) }
    }
}

impl<B, T> Builder<B, T> {
    /// Adds an executor, by its initializer, in front of the others.
    pub fn register<F>(self, init: F) -> (builder: Builder<B, ExecutorPair<(F, T)>>)
        ensures
            builder.root == self.root,
            builder.backend == self.backend,
            builder.executors == ExecutorPair((init, self.executors)),
    {
        Builder { root: self.root, backend: self.backend, executors: ExecutorPair((init, self.executors)) }
    }

    /// The environment of build `id`: the root joined with its number.
    pub fn environment_path(&self, id: BuildId) -> (path: String)
        ensures
            path@ == path_join(self.root@, decimal(id as nat)),
    {
        let name = crate::reports::pretty::write_decimal_u64(id);
        let len = self.root.unicode_len();
        let mut path = self.root.clone();
        if len == 0 || self.root.get_char(len - 1) == '/' {
            path.append(name.as_str());
        } else {
            path.append("/");
            path.append(name.as_str());
        }
        path
    }
}

/// The executor a request goes to: the first of `names` (the executors
/// in the order they are asked, the latest registered first) that is the
/// request's `executor`; `None` when no executor has that name.
pub fn find_executor(names: &Vec<String>, executor: &str) -> (found: Option<usize>)
    ensures
        match found {
            Some(i) => i < names@.len() && names@[i as int]@ == executor@ && forall|j: int|
                0 <= j < i ==> (#[trigger] names@[j])@ != executor@,
            None => forall|j: int| 0 <= j < names@.len() ==> (#[trigger] names@[j])@ != executor@,
        },
{
    let wanted = String::from_str(executor);
    let mut i: usize = 0;
    while i < names.len()
        invariant
            i <= names@.len(),
            wanted@ == executor@,
            forall|j: int| 0 <= j < i ==> (#[trigger] names@[j])@ != executor@,
        decreases names@.len() - i,
    {
        if names[i] == wanted {
            return Some(i);
        }
        i = i + 1;
    }
    None
}

/// `i` is where an executor named `executor` is found among `names`: the
/// first with that name.
pub open spec fn first_named(names: Seq<String>, executor: Seq<char>, i: int) -> bool {
    &&& 0 <= i < names.len()
    &&& names[i]@ == executor
    &&& forall|j: int| 0 <= j < i ==> (#[trigger] names[j])@ != executor
}

/// The executors that requests go to, in order (see [`find_executor`]):
/// one for each request up to the first whose executor is not registered,
/// where routing stops.
pub fn route_requests(names: &Vec<String>, wanted: &Vec<String>) -> (routes: Vec<usize>)
    ensures
        routes@.len() <= wanted@.len(),
        forall|k: int| 0 <= k < routes@.len() ==> first_named(names@, wanted@[k]@, #[trigger] routes@[k] as int),
        routes@.len() < wanted@.len() ==> forall|j: int|
            0 <= j < names@.len() ==> (#[trigger] names@[j])@ != wanted@[routes@.len() as int]@,
{
    let mut routes: Vec<usize> = Vec::new();
    let mut k: usize = 0;
    while k < wanted.len()
        invariant
            k <= wanted@.len(),
            routes@.len() == k,
            forall|q: int| 0 <= q < k ==> first_named(names@, wanted@[q]@, #[trigger] routes@[q] as int),
        ensures
            routes@.len() <= wanted@.len(),
            forall|q: int| 0 <= q < routes@.len() ==> first_named(names@, wanted@[q]@, #[trigger] routes@[q] as int),
            routes@.len() < wanted@.len() ==> forall|j: int|
                0 <= j < names@.len() ==> (#[trigger] names@[j])@ != wanted@[routes@.len() as int]@,
        decreases wanted@.len() - k,
    {
        match find_executor(names, wanted[k].as_str()) {
            Some(i) => routes.push(i),
            None => break,
        }
        k = k + 1;
    }
    routes
}

} // verus!
