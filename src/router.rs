//! Method-keyed route tables and the dispatch chain: exact route, then (for
//! `GET` only) a static file under the first root that has it, then the
//! wildcard route `*`.

use vstd::prelude::*;
use crate::request::Protocols;
use crate::table::{find_last, Table};

verus! {

/// One route table per method; `H` is what a route leads to.
pub struct Routes<H> {
    pub get_routes: Table<H>,
    pub post_routes: Table<H>,
    pub put_routes: Table<H>,
    pub delete_routes: Table<H>,
}

/// What to do with a request.
pub enum Action<H> {
    /// Hand the request to this handler.
    Invoke(H),
    /// No route matched a `GET`: look for a static file, then call
    /// `static_fallback` with what was found.
    SearchStatic,
    /// Answer with the contents of this static file.
    Serve(String),
    /// Close the connection without an answer.
    NoResponse,
}

impl<H> Routes<H> {
    /// The route table of method `m`.
    pub open spec fn table(&self, m: Protocols) -> Table<H> {
        match m {
            Protocols::GET => self.get_routes,
            Protocols::POST => self.post_routes,
            Protocols::PUT => self.put_routes,
            Protocols::DELETE => self.delete_routes,
        }
    }

    /// The handler of `path` for method `m`, if one is registered.
    pub open spec fn route(&self, m: Protocols, path: Seq<char>) -> Option<H> {
        find_last(self.table(m).keyed(), path)
    }

    /// Four empty tables.
    pub fn new() -> (r: Self)
        ensures
            forall|m: Protocols, p: Seq<char>| #[trigger] r.route(m, p) is None,
    {
        Routes {
            get_routes: Table::new(),
            post_routes: Table::new(),
            put_routes: Table::new(),
            delete_routes: Table::new(),
        }
    }
}

/// The first step of dispatch.
pub open spec fn resolve_spec<H>(routes: Routes<H>, m: Protocols, path: Seq<char>) -> Action<H> {
    match routes.route(m, path) {
        Some(h) => Action::Invoke(h),
        None => if m == Protocols::GET {
            Action::SearchStatic
        } else {
            Action::NoResponse
        },
    }
}

/// The step after a static file search for a `GET` that no route matched.
pub open spec fn fallback_spec<H>(routes: Routes<H>, found: Option<String>) -> Action<H> {
    match found {
        Some(f) => Action::Serve(f),
        None => match routes.route(Protocols::GET, "*"@) {
            Some(h) => Action::Invoke(h),
            None => Action::NoResponse,
        },
    }
}

/// The whole dispatch, where `found` is what the static file search gives.
pub open spec fn dispatch_spec<H>(
    routes: Routes<H>,
    m: Protocols,
    path: Seq<char>,
    found: Option<String>,
) -> Action<H> {
    match resolve_spec(routes, m, path) {
        Action::SearchStatic => fallback_spec(routes, found),
        a => a,
    }
}

/// The first entry that is `Some`.
pub open spec fn first_some(files: Seq<Option<String>>) -> Option<String>
    decreases files.len(),
{
    if files.len() == 0 {
        None
    } else if files[0] is Some {
        files[0]
    } else {
        first_some(files.drop_first())
    }
}

/// Registers `f` under `end_point` in the table of `protocol`; a later
/// registration of the same path replaces it.
pub fn register_end_point<H>(routes: &mut Routes<H>, protocol: Protocols, end_point: &str, f: H)
    ensures
        final(routes).table(protocol).keyed() == old(routes).table(protocol).keyed().push(
            (end_point@, f),
        ),
        final(routes).table(protocol)@ == old(routes).table(protocol)@.insert(end_point@, f),
        forall|m: Protocols| m != protocol ==> #[trigger] final(routes).table(m) == old(
            routes,
        ).table(m),
{
    let key = end_point.to_owned();
    match protocol {
        Protocols::GET => routes.get_routes.insert(key, f),
        Protocols::POST => routes.post_routes.insert(key, f),
        Protocols::PUT => routes.put_routes.insert(key, f),
        Protocols::DELETE => routes.delete_routes.insert(key, f),
    }
}

/// The handler registered last for `end_point` in `routes`.
pub fn get_route<'a, H>(routes: &'a Table<H>, end_point: &str) -> (r: Option<&'a H>)
    ensures
        match r {
            Some(h) => find_last(routes.keyed(), end_point@) == Some(*h),
            None => find_last(routes.keyed(), end_point@) is None,
        },
{
    routes.get(end_point)
}

/// The first step of dispatch: the exact route of the method if there is
/// one; else a static file search for `GET` and no answer for the others.
pub fn resolve<H: Copy>(routes: &Routes<H>, protocol: Protocols, end_point: &str) -> (r: Action<H>)
    ensures
        r == resolve_spec(*routes, protocol, end_point@),
{
    let table = match protocol {
        Protocols::GET => &routes.get_routes,
        Protocols::POST => &routes.post_routes,
        Protocols::PUT => &routes.put_routes,
        Protocols::DELETE => &routes.delete_routes,
    };
    match get_route(table, end_point) {
        Some(h) => Action::Invoke(*h),
        None => if protocol == Protocols::GET {
            Action::SearchStatic
        } else {
            Action::NoResponse
        },
    }
}

/// After a static file search for a `GET` that no route matched: serve the
/// file found, else hand the request to the wildcard route, else nothing.
pub fn static_fallback<H: Copy>(routes: &Routes<H>, found: Option<String>) -> (r: Action<H>)
    ensures
        r == fallback_spec(*routes, found),
{
    match found {
        Some(f) => Action::Serve(f),
        None => match get_route(&routes.get_routes, "*") {
            Some(h) => Action::Invoke(*h),
            None => Action::NoResponse,
        },
    }
}

/// The file paths to try for `path`, one per static root, in the roots'
/// order: the root and the path written one after the other.
pub fn static_paths(path: &str, static_folders: &Vec<String>) -> (r: Vec<String>)
    ensures
        r@.len() == static_folders@.len(),
        forall|i: int| 0 <= i < r@.len() ==> #[trigger] r@[i]@ == static_folders@[i]@ + path@,
{
    let mut out: Vec<String> = Vec::new();
    let mut i: usize = 0;
    while i < static_folders.len()
        invariant
            i <= static_folders@.len(),
            out@.len() == i,
            forall|j: int| 0 <= j < i ==> #[trigger] out@[j]@ == static_folders@[j]@ + path@,
        decreases static_folders@.len() - i,
    {
        let mut p = static_folders[i].clone();
        p.append(path);
        out.push(p);
        i = i + 1;
    }
    out
}

/// The contents of the first file that could be read, given what reading
/// each path of `static_paths` gave.
pub fn first_found(files: &Vec<Option<String>>) -> (r: Option<String>)
    ensures
        r == first_some(files@),
{
    let mut i: usize = 0;
    assert(files@.skip(0) =~= files@);
    while i < files.len()
        invariant
            i <= files@.len(),
            first_some(files@.skip(i as int)) == first_some(files@),
        decreases files@.len() - i,
    {
        let ghost rest = files@.skip(i as int);
        assert(rest.drop_first() =~= files@.skip(i + 1));
        if let Some(f) = &files[i] {
            return Some(f.clone());
        }
        i = i + 1;
    }
    None
}

/// What `str::to_lowercase` makes of a string.
pub uninterp spec fn lower_of(s: Seq<char>) -> Seq<char>;

/// Relies on `str::to_lowercase`, whose result depends on the characters alone.
#[verifier::external_body]
fn lowercase(s: &str) -> (r: String)
    ensures
        r@ == lower_of(s@),
{
    s.to_lowercase()
}

/// Adds a static root, lower-cased, after the others.
pub fn register_static_folder(folder_path: &str, static_folders: &mut Vec<String>)
    ensures
        final(static_folders)@.len() == old(static_folders)@.len() + 1,
        final(static_folders)@.subrange(0, old(static_folders)@.len() as int) == old(
            static_folders,
        )@,
        final(static_folders)@.last()@ == lower_of(folder_path@),
{
    static_folders.push(lowercase(folder_path));
    assert(static_folders@.subrange(0, old(static_folders)@.len() as int) =~= old(
        static_folders,
    )@);
}

/// A `GET` route registered for a path is the handler that a `GET` of that
/// path reaches, whatever the static file search would give.
pub proof fn lemma_registered_route_invoked<H>(
    before: Routes<H>,
    after: Routes<H>,
    path: Seq<char>,
    h: H,
    found: Option<String>,
)
    requires
        after.table(Protocols::GET).keyed() == before.table(Protocols::GET).keyed().push(
            (path, h),
        ),
    ensures
        dispatch_spec(after, Protocols::GET, path, found) == Action::<H>::Invoke(h),
{
}

/// A `GET` with no route, no static file under any root and no wildcard
/// route gets no answer.
pub proof fn lemma_miss_no_response<H>(routes: Routes<H>, path: Seq<char>)
    requires
        routes.route(Protocols::GET, path) is None,
        routes.route(Protocols::GET, "*"@) is None,
    ensures
        dispatch_spec(routes, Protocols::GET, path, None) == Action::<H>::NoResponse,
{
}

/// A method other than `GET` reaches only its own table: without a route
/// there it gets no answer, whatever the `GET` table holds and whatever the
/// static roots hold.
pub proof fn lemma_tables_independent<H>(
    routes: Routes<H>,
    m: Protocols,
    path: Seq<char>,
    found: Option<String>,
)
    requires
        m != Protocols::GET,
        routes.route(m, path) is None,
    ensures
        dispatch_spec(routes, m, path, found) == Action::<H>::NoResponse,
{
}

/// The static roots are tried in order: a file readable under the first
/// root is served, whatever the later roots hold.
pub proof fn lemma_first_root_wins(files: Seq<Option<String>>)
    requires
        files.len() >= 1,
        files[0] is Some,
    ensures
        first_some(files) == files[0],
{
}

} // verus!
