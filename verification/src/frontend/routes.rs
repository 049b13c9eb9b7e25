//! Checks on Python-provided frontend routes: only synchronous, callable
//! `GET` handlers on static paths, each path at most once, and response
//! status codes in the HTTP range.

use vstd::prelude::*;
use crate::text::{
    views, is_white, is_white_char, eq_ignore_ascii_case, ascii_eq_ignore_case, str_equal, push_str, push_decimal,
    decimal,
};

verus! {

/// Why a route or a response was refused. Paths and methods are those given.
#[derive(Clone, Debug)]
pub enum RouteError {
    /// The handler is not callable.
    HandlerNotCallable,
    /// The handler is an `async def`.
    AsyncHandler,
    /// The method is not `GET`.
    UnsupportedMethod(String),
    /// The path does not start with `/`.
    PathNotRooted,
    /// The path holds a parameter brace, a wildcard, whitespace or a control
    /// character.
    PathNotStatic(String),
    /// Two routes share a path.
    DuplicateRoute(String),
    /// The status code is outside 100..=999.
    InvalidStatus(u16),
}

/// A refusal as plain values.
pub enum RouteFault {
    HandlerNotCallable,
    AsyncHandler,
    UnsupportedMethod(Seq<char>),
    PathNotRooted,
    PathNotStatic(Seq<char>),
    DuplicateRoute(Seq<char>),
    InvalidStatus(u16),
}

pub open spec fn route_fault(e: RouteError) -> RouteFault {
    match e {
        RouteError::HandlerNotCallable => RouteFault::HandlerNotCallable,
        RouteError::AsyncHandler => RouteFault::AsyncHandler,
        RouteError::UnsupportedMethod(m) => RouteFault::UnsupportedMethod(m@),
        RouteError::PathNotRooted => RouteFault::PathNotRooted,
        RouteError::PathNotStatic(p) => RouteFault::PathNotStatic(p@),
        RouteError::DuplicateRoute(p) => RouteFault::DuplicateRoute(p@),
        RouteError::InvalidStatus(c) => RouteFault::InvalidStatus(c),
    }
}

/// Unicode general category `Cc` (what `char::is_control` tests).
pub open spec fn is_control(c: char) -> bool {
    let n = c as u32;
    n <= 0x1F || (0x7F <= n && n <= 0x9F)
}

/// The text of a refusal.
pub open spec fn route_message(f: RouteFault) -> Seq<char> {
    match f {
        RouteFault::HandlerNotCallable => "FrontendRoute handler must be callable"@,
        RouteFault::AsyncHandler => "FrontendRoute handler must be synchronous; async def handlers are not supported"@,
        RouteFault::UnsupportedMethod(m) => "unsupported FrontendRoute method '"@ + m + "'; only GET is supported"@,
        RouteFault::PathNotRooted => "FrontendRoute path must start with '/'"@,
        RouteFault::PathNotStatic(p) => "FrontendRoute path '"@ + p
            + "' must be a static path (no path parameters '{...}', wildcards '*', or whitespace)"@,
        RouteFault::DuplicateRoute(p) => "duplicate frontend route registered: GET "@ + p,
        RouteFault::InvalidStatus(c) => "invalid status code "@ + decimal(c as nat) + ": invalid status code"@,
    }
}

impl RouteError {
    /// The error's text.
    pub fn message(&self) -> (r: String)
        ensures
            r@ == route_message(route_fault(*self)),
    {
        let mut m = String::new();
        match self {
            RouteError::HandlerNotCallable => {
                push_str(&mut m, "FrontendRoute handler must be callable");
            },
            RouteError::AsyncHandler => {
                push_str(&mut m, "FrontendRoute handler must be synchronous; async def handlers are not supported");
            },
            RouteError::UnsupportedMethod(method) => {
                push_str(&mut m, "unsupported FrontendRoute method '");
                push_str(&mut m, method.as_str());
                push_str(&mut m, "'; only GET is supported");
            },
            RouteError::PathNotRooted => {
                push_str(&mut m, "FrontendRoute path must start with '/'");
            },
            RouteError::PathNotStatic(path) => {
                push_str(&mut m, "FrontendRoute path '");
                push_str(&mut m, path.as_str());
                push_str(
                    &mut m,
                    "' must be a static path (no path parameters '{...}', wildcards '*', or whitespace)",
                );
            },
            RouteError::DuplicateRoute(path) => {
                push_str(&mut m, "duplicate frontend route registered: GET ");
                push_str(&mut m, path.as_str());
            },
            RouteError::InvalidStatus(code) => {
                push_str(&mut m, "invalid status code ");
                push_decimal(&mut m, *code as u64);
                push_str(&mut m, ": invalid status code");
            },
        }
        assert(m@ =~= route_message(route_fault(*self)));
        m
    }
}

/// Characters a static path may not hold.
pub open spec fn forbidden_in_path(c: char) -> bool {
    c == '{' || c == '}' || c == '*' || is_white(c) || is_control(c)
}

fn forbidden_char(c: char) -> (r: bool)
    ensures
        r == forbidden_in_path(c),
{
    let n = c as u32;
    c == '{' || c == '}' || c == '*' || is_white_char(c) || n <= 0x1F || (0x7F <= n && n <= 0x9F)
}

/// The verdict on a path: it must start with `/` and be static.
pub open spec fn path_verdict(p: Seq<char>) -> Result<(), RouteFault> {
    if p.len() == 0 || p[0] != '/' {
        Err(RouteFault::PathNotRooted)
    } else if exists|i: int| 0 <= i < p.len() && #[trigger] forbidden_in_path(p[i]) {
        Err(RouteFault::PathNotStatic(p))
    } else {
        Ok(())
    }
}

pub open spec fn result_fault(r: Result<(), RouteError>) -> Result<(), RouteFault> {
    match r {
        Ok(()) => Ok(()),
        Err(e) => Err(route_fault(e)),
    }
}

/// Rejects non-static paths (parameters `{...}`, wildcards `*`, whitespace
/// or control characters), which would make the router panic or create
/// conflicts a path-string key cannot detect.
pub fn validate_static_path(path: &str) -> (r: Result<(), RouteError>)
    ensures
        result_fault(r) == path_verdict(path@),
{
    let n = path.unicode_len();
    if n == 0 || path.get_char(0) != '/' {
        return Err(RouteError::PathNotRooted);
    }
    let mut i: usize = 0;
    while i < n
        invariant
            n == path@.len(),
            n > 0,
            path@[0] == '/',
            i <= n,
            forall|j: int| 0 <= j < i ==> !#[trigger] forbidden_in_path(path@[j]),
        decreases n - i,
    {
        if forbidden_char(path.get_char(i)) {
            assert(forbidden_in_path(path@[i as int]));
            return Err(RouteError::PathNotStatic(String::from_str(path)));
        }
        i = i + 1;
    }
    Ok(())
}

pub open spec fn get_method() -> Seq<char> {
    seq!['G', 'E', 'T']
}

/// The verdict on a new route: the handler must be callable and synchronous,
/// the method `GET` (any ASCII case) and the path static.
pub open spec fn route_verdict(method: Seq<char>, path: Seq<char>, callable: bool, is_async: bool) -> Result<
    (),
    RouteFault,
> {
    if !callable {
        Err(RouteFault::HandlerNotCallable)
    } else if is_async {
        Err(RouteFault::AsyncHandler)
    } else if !eq_ignore_ascii_case(method, get_method()) {
        Err(RouteFault::UnsupportedMethod(method))
    } else {
        path_verdict(path)
    }
}

/// A Python-provided frontend route: a static-path `GET` with a synchronous
/// handler (the handler itself stays with the Python binding).
#[derive(Clone, Debug)]
pub struct FrontendRoute {
    path: String,
}

impl FrontendRoute {
    pub closed spec fn path_view(&self) -> Seq<char> {
        self.path@
    }

    /// Checks a route: `callable` and `is_async` describe its handler.
    pub fn new(method: &str, path: String, callable: bool, is_async: bool) -> (r: Result<Self, RouteError>)
        ensures
            match r {
                Ok(route) => route_verdict(method@, path@, callable, is_async) == Ok::<(), RouteFault>(())
                    && route.path_view() == path@,
                Err(e) => route_verdict(method@, path@, callable, is_async) == Err::<(), RouteFault>(
                    route_fault(e),
                ),
            },
    {
        if !callable {
            return Err(RouteError::HandlerNotCallable);
        }
        if is_async {
            return Err(RouteError::AsyncHandler);
        }
        proof {
            reveal_strlit("GET");
            assert("GET"@ =~= get_method());
        }
        if !ascii_eq_ignore_case(method, "GET") {
            return Err(RouteError::UnsupportedMethod(String::from_str(method)));
        }
        match validate_static_path(path.as_str()) {
            Err(e) => Err(e),
            Ok(()) => Ok(FrontendRoute { path }),
        }
    }

    /// The route's method, always `GET`.
    pub fn method(&self) -> (r: String)
        ensures
            r@ == get_method(),
    {
        proof {
            reveal_strlit("GET");
        }
        String::from_str("GET")
    }

    pub fn path(&self) -> (r: String)
        ensures
            r@ == self.path_view(),
    {
        self.path.clone()
    }
}

/// The first path among `paths` that repeats an earlier one, from position
/// `i` on, given the paths before `i` are distinct.
pub open spec fn first_repeat_from(paths: Seq<Seq<char>>, i: int) -> Option<Seq<char>>
    decreases paths.len() - i,
{
    if i < 0 || i >= paths.len() {
        None
    } else if paths.take(i).contains(paths[i]) {
        Some(paths[i])
    } else {
        first_repeat_from(paths, i + 1)
    }
}

/// Routes all fold into one router, which panics on an overlapping path:
/// refuses the first path registered twice (GET-only, so the path is the
/// key).
pub fn check_unique_routes(routes: &Vec<FrontendRoute>) -> (r: Result<(), RouteError>)
    ensures
        match first_repeat_from(routes@.map_values(|x: FrontendRoute| x.path_view()), 0) {
            Some(p) => result_fault(r) == Err::<(), RouteFault>(RouteFault::DuplicateRoute(p)),
            None => r is Ok,
        },
{
    let ghost ps = routes@.map_values(|x: FrontendRoute| x.path_view());
    let mut i: usize = 0;
    while i < routes.len()
        invariant
            ps == routes@.map_values(|x: FrontendRoute| x.path_view()),
            i <= routes@.len(),
            first_repeat_from(ps, 0) == first_repeat_from(ps, i as int),
        decreases routes@.len() - i,
    {
        let mut j: usize = 0;
        let mut seen = false;
        while j < i
            invariant
                ps == routes@.map_values(|x: FrontendRoute| x.path_view()),
                j <= i,
                i < routes@.len(),
                seen == ps.take(j as int).contains(ps[i as int]),
            decreases i - j,
        {
            assert(ps[j as int] == routes@[j as int].path@);
            assert(ps[i as int] == routes@[i as int].path@);
            let same = str_equal(routes[j].path.as_str(), routes[i].path.as_str());
            proof {
                let t0 = ps.take(j as int);
                let t = ps.take(j + 1);
                assert(t =~= t0.push(ps[j as int]));
                if same {
                    assert(t[j as int] == ps[i as int]);
                } else {
                    if t.contains(ps[i as int]) {
                        let k = choose|k: int| 0 <= k < t.len() && t[k] == ps[i as int];
                        assert(k < j);
                        assert(t0[k] == ps[i as int]);
                    }
                    if t0.contains(ps[i as int]) {
                        let k = choose|k: int| 0 <= k < t0.len() && t0[k] == ps[i as int];
                        assert(t[k] == ps[i as int]);
                    }
                }
            }
            if same {
                seen = true;
            }
            j = j + 1;
        }
        if seen {
            assert(ps[i as int] == routes@[i as int].path@);
            return Err(RouteError::DuplicateRoute(routes[i].path.clone()));
        }
        i = i + 1;
    }
    Ok(())
}

/// Status codes an HTTP response may carry: 100 through 999.
pub open spec fn status_ok(code: u16) -> bool {
    100 <= code <= 999
}

/// Accepts a handler's status override when it is a valid HTTP status code.
pub fn validate_status_code(code: u16) -> (r: Result<(), RouteError>)
    ensures
        result_fault(r) == if status_ok(code) {
            Ok::<(), RouteFault>(())
        } else {
            Err(RouteFault::InvalidStatus(code))
        },
{
    if 100 <= code && code <= 999 {
        Ok(())
    } else {
        Err(RouteError::InvalidStatus(code))
    }
}

} // verus!
