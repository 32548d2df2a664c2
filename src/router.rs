//! Request routing: an ordered chain of handlers, the first that accepts a
//! request answers it.
use vstd::prelude::*;
use crate::text::same_text;

verus! {

/// The handlers of the chain.
#[derive(Clone, Copy, Debug, PartialEq, Eq, Structural)]
pub enum Handler {
    /// The menu page, on the exact root path.
    Home,
    /// A file under the documentation root, when one answers the path.
    StaticFiles,
    /// The plain-text message for a path that nothing else answered.
    Fallback,
}

/// What answers a request.
#[derive(Debug, PartialEq, Eq)]
pub enum Response {
    /// Render the menu page.
    Home,
    /// Send the static file found for the path.
    StaticFile,
    /// Send this text.
    Text(String),
}

impl Response {
    pub open spec fn handler(self) -> Handler {
        match self {
            Response::Home => Handler::Home,
            Response::StaticFile => Handler::StaticFiles,
            Response::Text(_) => Handler::Fallback,
        }
    }
}

pub open spec fn root_path() -> Seq<char> {
    seq!['/']
}

/// The order in which handlers are tried.
pub open spec fn chain() -> Seq<Handler> {
    seq![Handler::Home, Handler::StaticFiles, Handler::Fallback]
}

/// Whether `h` answers a request for `path`; `static_found` tells whether a
/// static file answers it.
pub open spec fn accepts(h: Handler, path: Seq<char>, static_found: bool) -> bool {
    match h {
        Handler::Home => path == root_path(),
        Handler::StaticFiles => static_found,
        Handler::Fallback => true,
    }
}

/// The first handler of `hs` that accepts the request.
pub open spec fn first_handler(hs: Seq<Handler>, path: Seq<char>, static_found: bool) -> Option<
    Handler,
>
    decreases hs.len(),
{
    if hs.len() == 0 {
        None
    } else if accepts(hs[0], path, static_found) {
        Some(hs[0])
    } else {
        first_handler(hs.drop_first(), path, static_found)
    }
}

pub open spec fn fallback_text(path: Seq<char>) -> Seq<char> {
    "No static file with path '"@ + path + "'!"@
}

/// The handlers in the order in which they are tried.
pub fn handler_chain() -> (r: Vec<Handler>)
    ensures
        r@ == chain(),
{
    let r = vec![Handler::Home, Handler::StaticFiles, Handler::Fallback];
    assert(r@ =~= chain());
    r
}

impl Handler {
    /// Whether this handler answers a request for `path`.
    pub fn accepts(&self, path: &str, static_found: bool) -> (r: bool)
        ensures
            r == accepts(*self, path@, static_found),
    {
        proof {
            reveal_strlit("/");
        }
        match self {
            Handler::Home => {
                let r = same_text(path, "/");
                assert(("/"@) =~= root_path());
                r
            },
            Handler::StaticFiles => static_found,
            Handler::Fallback => true,
        }
    }
}

/// The text sent for a path that no file answers.
pub fn fallback_message(path: &str) -> (r: String)
    ensures
        r@ == fallback_text(path@),
{
    let mut s = String::from_str("No static file with path '");
    s.append(path);
    s.append("'!");
    s
}

/// Answers a request for `path` by the first handler of the chain that accepts
/// it; `static_found` tells whether a static file answers the path.
pub fn route(path: &str, static_found: bool) -> (r: Response)
    ensures
        first_handler(chain(), path@, static_found) == Some(r.handler()),
        r matches Response::Text(t) ==> t@ == fallback_text(path@),
{
    let hs = handler_chain();
    let mut i: usize = 0;
    assert(chain().subrange(0, 3) =~= chain());
    while i < hs.len()
        invariant
            hs@ == chain(),
            i <= hs@.len(),
            forall|k: int| 0 <= k < i ==> chain()[k] != Handler::Fallback,
            first_handler(chain(), path@, static_found) == first_handler(
                chain().subrange(i as int, 3),
                path@,
                static_found,
            ),
        decreases hs@.len() - i,
    {
        let h = hs[i];
        assert(chain().subrange(i as int, 3).drop_first() =~= chain().subrange(i + 1, 3));
        if h.accepts(path, static_found) {
            return match h {
                Handler::Home => Response::Home,
                Handler::StaticFiles => Response::StaticFile,
                Handler::Fallback => Response::Text(fallback_message(path)),
            };
        }
        i = i + 1;
    }
    assert(chain()[2] == Handler::Fallback);
    Response::Text(fallback_message(path))
}

/// The root path always reaches the home handler, whatever is on disk; any
/// other path that no static file answers reaches the fallback.
pub proof fn lemma_routing(path: Seq<char>, static_found: bool)
    ensures
        first_handler(chain(), root_path(), static_found) == Some(Handler::Home),
        path != root_path() ==> first_handler(chain(), path, false) == Some(Handler::Fallback),
{
    let hs = chain();
    assert(hs.drop_first() =~= seq![Handler::StaticFiles, Handler::Fallback]);
    assert(hs.drop_first().drop_first() =~= seq![Handler::Fallback]);
    if path != root_path() {
        assert(first_handler(hs.drop_first().drop_first(), path, false) == Some(Handler::Fallback));
        assert(first_handler(hs.drop_first(), path, false) == Some(Handler::Fallback));
    }
}

} // verus!
