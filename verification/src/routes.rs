//! The request-level decisions of the HTTP surface that need no HTTP types:
//! which deferred family an unmatched path belongs to, the `?status=` fault
//! filter of a query string, and the endpoint catalogue the root document
//! advertises.

use vstd::prelude::*;
use crate::error::{ApiError, error_is};
use crate::model::GenericError;
use crate::text::{append_str, contains, occurs_in, owned, str_eq};
use crate::view::{FaultStatusFilter, filter_of_query};

verus! {

/// The family an unmatched path is declined under: the first of the deferred
/// families whose name occurs in the path, else `x-medkit` if that occurs,
/// else `unknown`.
pub open spec fn family_of(path: Seq<char>) -> Seq<char> {
    if occurs_in("operations"@, path) {
        "operations"@
    } else if occurs_in("configurations"@, path) {
        "configurations"@
    } else if occurs_in("bulk-data"@, path) {
        "bulk-data"@
    } else if occurs_in("locks"@, path) {
        "locks"@
    } else if occurs_in("scripts"@, path) {
        "scripts"@
    } else if occurs_in("updates"@, path) {
        "updates"@
    } else if occurs_in("triggers"@, path) {
        "triggers"@
    } else if occurs_in("cyclic-subscriptions"@, path) {
        "cyclic-subscriptions"@
    } else if occurs_in("logs"@, path) {
        "logs"@
    } else if occurs_in("status"@, path) {
        "status"@
    } else if occurs_in("auth"@, path) {
        "auth"@
    } else if occurs_in("docs"@, path) {
        "docs"@
    } else if occurs_in("x-medkit"@, path) {
        "x-medkit"@
    } else {
        "unknown"@
    }
}

/// The family an unmatched request path is declined under (`501`).
pub fn infer_family(path: &str) -> (r: String)
    ensures
        r@ == family_of(path@),
{
    if contains(path, "operations") {
        owned("operations")
    } else if contains(path, "configurations") {
        owned("configurations")
    } else if contains(path, "bulk-data") {
        owned("bulk-data")
    } else if contains(path, "locks") {
        owned("locks")
    } else if contains(path, "scripts") {
        owned("scripts")
    } else if contains(path, "updates") {
        owned("updates")
    } else if contains(path, "triggers") {
        owned("triggers")
    } else if contains(path, "cyclic-subscriptions") {
        owned("cyclic-subscriptions")
    } else if contains(path, "logs") {
        owned("logs")
    } else if contains(path, "status") {
        owned("status")
    } else if contains(path, "auth") {
        owned("auth")
    } else if contains(path, "docs") {
        owned("docs")
    } else if contains(path, "x-medkit") {
        owned("x-medkit")
    } else {
        owned("unknown")
    }
}

/// The position of the first `c` in `s`; its length when there is none.
pub open spec fn index_of(s: Seq<char>, c: char) -> int
    decreases s.len(),
{
    if s.len() == 0 {
        0
    } else if s[0] == c {
        0
    } else {
        1 + index_of(s.skip(1), c)
    }
}

/// The first position of a character lies within the sequence or at its end.
pub proof fn lemma_index_of_bounds(s: Seq<char>, c: char)
    ensures
        0 <= index_of(s, c) <= s.len(),
    decreases s.len(),
{
    if s.len() > 0 && s[0] != c {
        lemma_index_of_bounds(s.skip(1), c);
    }
}

/// A position with no `c` before it, holding `c` or at the end, is the first
/// `c`.
proof fn lemma_index_of(s: Seq<char>, c: char, p: int)
    requires
        0 <= p <= s.len(),
        forall|k: int| 0 <= k < p ==> s[k] != c,
        p == s.len() || s[p] == c,
    ensures
        index_of(s, c) == p,
    decreases p,
{
    if p > 0 {
        assert forall|k: int| 0 <= k < p - 1 implies #[trigger] s.skip(1)[k] != c by {
            assert(s.skip(1)[k] == s[k + 1]);
        }
        if p < s.len() {
            assert(s.skip(1)[p - 1] == s[p]);
        }
        lemma_index_of(s.skip(1), c, p - 1);
    }
}

/// The value of the `status` parameter of a query string: the first
/// `&`-separated segment whose key (before its first `=`) is `status` gives
/// the text after that `=` (empty without one).
pub open spec fn status_param(q: Seq<char>) -> Option<Seq<char>>
    decreases q.len(),
{
    let j = index_of(q, '&');
    proof {
        lemma_index_of_bounds(q, '&');
    }
    let seg = q.subrange(0, j);
    let k = index_of(seg, '=');
    proof {
        lemma_index_of_bounds(seg, '=');
    }
    if seg.subrange(0, k) == "status"@ {
        Some(if k < seg.len() { seg.subrange(k + 1, seg.len() as int) } else { Seq::empty() })
    } else if j < q.len() {
        status_param(q.subrange(j + 1, q.len() as int))
    } else {
        None
    }
}

/// The first position of `c` in `s` from `from` on, before `to` (`to` when
/// there is none).
fn find_char(s: &str, c: char, from: usize, to: usize) -> (r: usize)
    requires
        from <= to <= s@.len(),
    ensures
        from <= r <= to,
        r - from == index_of(s@.subrange(from as int, to as int), c),
{
    let mut i = from;
    let mut hit = false;
    while i < to && !hit
        invariant
            from <= i <= to,
            to <= s@.len(),
            forall|k: int| from <= k < i ==> s@[k] != c,
            hit ==> i < to && s@[i as int] == c,
        decreases to - i, if hit { 0int } else { 1int },
    {
        if s.get_char(i) == c {
            hit = true;
        } else {
            i = i + 1;
        }
    }
    proof {
        let t = s@.subrange(from as int, to as int);
        assert forall|k: int| 0 <= k < i - from implies t[k] != c by {
            assert(t[k] == s@[from + k]);
        }
        if i < to {
            assert(t[i - from] == s@[i as int]);
        }
        lemma_index_of(t, c, i - from);
    }
    i
}

/// The value of the `status` parameter of a query string, if any.
pub fn status_value(q: &str) -> (r: Option<&str>)
    ensures
        match r {
            Some(v) => status_param(q@) == Some(v@),
            None => status_param(q@) is None,
        },
{
    let n = q.unicode_len();
    let mut i: usize = 0;
    proof {
        assert(q@.subrange(0, n as int) =~= q@);
    }
    while i <= n
        invariant
            n == q@.len(),
            i <= n,
            status_param(q@) == status_param(q@.subrange(i as int, n as int)),
        decreases n - i,
    {
        let ghost t = q@.subrange(i as int, n as int);
        let j = find_char(q, '&', i, n);
        proof {
            assert(t.subrange(0, j - i) =~= q@.subrange(i as int, j as int));
        }
        let k = find_char(q, '=', i, j);
        proof {
            let seg = t.subrange(0, j - i);
            assert(seg.subrange(0, k - i) =~= q@.subrange(i as int, k as int));
            assert(q@.subrange(i as int, j as int) =~= seg);
        }
        let key = q.substring_char(i, k);
        if str_eq(key, "status") {
            if k < j {
                let v = q.substring_char(k + 1, j);
                proof {
                    let seg = t.subrange(0, j - i);
                    assert(seg.subrange(k - i + 1, seg.len() as int) =~= q@.subrange(k + 1, j as int));
                }
                return Some(v);
            } else {
                let v = q.substring_char(j, j);
                proof {
                    assert(v@ =~= Seq::<char>::empty());
                }
                return Some(v);
            }
        }
        if j < n {
            proof {
                assert(t.subrange(j - i + 1, t.len() as int) =~= q@.subrange(j + 1, n as int));
            }
            i = j + 1;
        } else {
            return None;
        }
    }
    None
}

/// The optional characters of an optional query.
pub open spec fn query_status(query: Option<Seq<char>>) -> Option<Seq<char>> {
    match query {
        Some(q) => status_param(q),
        None => None,
    }
}

/// The fault-list filter a request's query string selects: its `status`
/// parameter parsed, or the `invalid-parameter` error naming the value (empty
/// when the parameter has no value).
pub fn status_filter(query: Option<&str>) -> (r: Result<FaultStatusFilter, ApiError>)
    ensures
        match filter_of_query(query_status(crate::view::opt_str(query))) {
            Some(f) => r == Ok::<FaultStatusFilter, ApiError>(f),
            None => r matches Err(ApiError::BadRequest(g)) && error_is(
                g,
                "invalid-parameter"@,
                "Unknown fault status filter"@,
                seq![("status"@, match query_status(crate::view::opt_str(query)) {
                    Some(v) => v,
                    None => Seq::empty(),
                })],
            ),
        },
{
    let value = match query {
        Some(q) => status_value(q),
        None => None,
    };
    match FaultStatusFilter::parse(value) {
        Some(f) => Ok(f),
        None => {
            let shown = match value {
                Some(v) => v,
                None => "",
            };
            proof {
                if value is None {
                    assert(shown@ =~= Seq::<char>::empty());
                }
            }
            Err(ApiError::bad_status(shown))
        },
    }
}

/// The `entity-not-found` body for `id`.
pub fn not_found_entity(id: &str) -> (r: GenericError)
    ensures
        error_is(r, "entity-not-found"@, "Entity not found"@, seq![("entity_id"@, id@)]),
{
    let mut parameters: Vec<(String, String)> = Vec::new();
    parameters.push((owned("entity_id"), owned(id)));
    GenericError { error_code: owned("entity-not-found"), message: owned("Entity not found"), parameters }
}

/// An endpoint on the API base: `{method} /api/v1{path}`.
pub open spec fn base_ep(method: Seq<char>, path: Seq<char>) -> Seq<char> {
    method + " /api/v1"@ + path
}

/// An endpoint under an entity collection: `{method} /api/v1/{collection}{suffix}`.
pub open spec fn kind_ep(method: Seq<char>, collection: Seq<char>, suffix: Seq<char>) -> Seq<char> {
    method + " /api/v1/"@ + collection + suffix
}

/// The global endpoints, in advertised order.
pub open spec fn global_endpoints() -> Seq<Seq<char>> {
    seq![
        base_ep("GET"@, "/"@),
        base_ep("GET"@, "/version-info"@),
        base_ep("GET"@, "/health"@),
        base_ep("GET"@, "/areas"@),
        base_ep("GET"@, "/components"@),
        base_ep("GET"@, "/apps"@),
        base_ep("GET"@, "/functions"@),
        base_ep("GET"@, "/faults"@),
        base_ep("DELETE"@, "/faults"@),
        base_ep("GET"@, "/faults/stream"@),
        base_ep("GET"@, "/triggers"@),
        base_ep("POST"@, "/triggers"@),
        base_ep("GET"@, "/triggers/events"@),
        base_ep("GET"@, "/updates"@),
        base_ep("POST"@, "/updates"@),
        base_ep("POST"@, "/auth/token"@),
        base_ep("POST"@, "/auth/authorize"@),
        base_ep("POST"@, "/auth/revoke"@),
    ]
}

/// The endpoints every entity kind exposes under its collection.
pub open spec fn kind_endpoints(c: Seq<char>) -> Seq<Seq<char>> {
    seq![
        kind_ep("GET"@, c, "/{id}"@),
        kind_ep("GET"@, c, "/{id}/faults"@),
        kind_ep("GET"@, c, "/{id}/faults/{fault_code}"@),
        kind_ep("GET"@, c, "/{id}/data"@),
        kind_ep("GET"@, c, "/{id}/triggers"@),
        kind_ep("POST"@, c, "/{id}/triggers"@),
        kind_ep("GET"@, c, "/{id}/operations"@),
        kind_ep("POST"@, c, "/{id}/operations/{op}/executions"@),
        kind_ep("GET"@, c, "/{id}/configurations"@),
        kind_ep("PUT"@, c, "/{id}/configurations/{config_id}"@),
        kind_ep("GET"@, c, "/{id}/logs"@),
    ]
}

/// Two endpoints under one collection.
pub open spec fn pair_endpoints(c: Seq<char>, m1: Seq<char>, s1: Seq<char>, m2: Seq<char>, s2: Seq<char>) -> Seq<Seq<char>> {
    seq![kind_ep(m1, c, s1), kind_ep(m2, c, s2)]
}

/// The full endpoint catalogue advertised at the root: the global endpoints,
/// the per-kind endpoints of areas, components, apps and functions, then the
/// families mounted on some kinds only.
pub open spec fn catalogue() -> Seq<Seq<char>> {
    global_endpoints()
        + kind_endpoints("areas"@)
        + kind_endpoints("components"@)
        + kind_endpoints("apps"@)
        + kind_endpoints("functions"@)
        + pair_endpoints("components"@, "GET"@, "/{id}/cyclic-subscriptions"@, "POST"@, "/{id}/cyclic-subscriptions"@)
        + pair_endpoints("apps"@, "GET"@, "/{id}/cyclic-subscriptions"@, "POST"@, "/{id}/cyclic-subscriptions"@)
        + pair_endpoints("functions"@, "GET"@, "/{id}/cyclic-subscriptions"@, "POST"@, "/{id}/cyclic-subscriptions"@)
        + pair_endpoints("apps"@, "GET"@, "/{id}/locks"@, "POST"@, "/{id}/locks"@)
        + pair_endpoints("components"@, "GET"@, "/{id}/locks"@, "POST"@, "/{id}/locks"@)
        + pair_endpoints("apps"@, "GET"@, "/{id}/bulk-data"@, "POST"@, "/{id}/bulk-data/{category_id}"@)
        + pair_endpoints("components"@, "GET"@, "/{id}/bulk-data"@, "POST"@, "/{id}/bulk-data/{category_id}"@)
        + pair_endpoints("apps"@, "GET"@, "/{id}/scripts"@, "POST"@, "/{id}/scripts"@)
        + pair_endpoints("components"@, "GET"@, "/{id}/scripts"@, "POST"@, "/{id}/scripts"@)
        + pair_endpoints("apps"@, "GET"@, "/{id}/status"@, "PUT"@, "/{id}/status/start"@)
        + pair_endpoints("components"@, "GET"@, "/{id}/status"@, "PUT"@, "/{id}/status/start"@)
}

/// The characters of a sequence of strings.
pub open spec fn string_views(v: Seq<String>) -> Seq<Seq<char>> {
    v.map_values(|s: String| s@)
}

fn push_base(v: &mut Vec<String>, method: &str, path: &str)
    ensures
        string_views(final(v)@) == string_views(old(v)@).push(base_ep(method@, path@)),
{
    let mut s = owned(method);
    append_str(&mut s, " /api/v1");
    append_str(&mut s, path);
    let ghost before = v@;
    v.push(s);
    proof {
        assert(string_views(v@) =~= string_views(before).push(base_ep(method@, path@)));
    }
}

fn push_kind(v: &mut Vec<String>, method: &str, collection: &str, suffix: &str)
    ensures
        string_views(final(v)@) == string_views(old(v)@).push(kind_ep(method@, collection@, suffix@)),
{
    let mut s = owned(method);
    append_str(&mut s, " /api/v1/");
    append_str(&mut s, collection);
    append_str(&mut s, suffix);
    let ghost before = v@;
    v.push(s);
    proof {
        assert(string_views(v@) =~= string_views(before).push(kind_ep(method@, collection@, suffix@)));
    }
}

fn push_kind_block(v: &mut Vec<String>, c: &str)
    ensures
        string_views(final(v)@) == string_views(old(v)@) + kind_endpoints(c@),
{
    let ghost start = string_views(v@);
    push_kind(v, "GET", c, "/{id}");
    push_kind(v, "GET", c, "/{id}/faults");
    push_kind(v, "GET", c, "/{id}/faults/{fault_code}");
    push_kind(v, "GET", c, "/{id}/data");
    push_kind(v, "GET", c, "/{id}/triggers");
    push_kind(v, "POST", c, "/{id}/triggers");
    push_kind(v, "GET", c, "/{id}/operations");
    push_kind(v, "POST", c, "/{id}/operations/{op}/executions");
    push_kind(v, "GET", c, "/{id}/configurations");
    push_kind(v, "PUT", c, "/{id}/configurations/{config_id}");
    push_kind(v, "GET", c, "/{id}/logs");
    proof {
        assert(string_views(v@) =~= start + kind_endpoints(c@));
    }
}

fn push_pair(v: &mut Vec<String>, c: &str, m1: &str, s1: &str, m2: &str, s2: &str)
    ensures
        string_views(final(v)@) == string_views(old(v)@) + pair_endpoints(c@, m1@, s1@, m2@, s2@),
{
    let ghost start = string_views(v@);
    push_kind(v, m1, c, s1);
    push_kind(v, m2, c, s2);
    proof {
        assert(string_views(v@) =~= start + pair_endpoints(c@, m1@, s1@, m2@, s2@));
    }
}

/// The endpoint catalogue advertised at the root: every route the gateway
/// mounts, the deferred families omitted.
pub fn endpoint_catalogue() -> (r: Vec<String>)
    ensures
        string_views(r@) == catalogue(),
{
    let mut v: Vec<String> = Vec::new();
    push_base(&mut v, "GET", "/");
    push_base(&mut v, "GET", "/version-info");
    push_base(&mut v, "GET", "/health");
    push_base(&mut v, "GET", "/areas");
    push_base(&mut v, "GET", "/components");
    push_base(&mut v, "GET", "/apps");
    push_base(&mut v, "GET", "/functions");
    push_base(&mut v, "GET", "/faults");
    push_base(&mut v, "DELETE", "/faults");
    push_base(&mut v, "GET", "/faults/stream");
    push_base(&mut v, "GET", "/triggers");
    push_base(&mut v, "POST", "/triggers");
    push_base(&mut v, "GET", "/triggers/events");
    push_base(&mut v, "GET", "/updates");
    push_base(&mut v, "POST", "/updates");
    push_base(&mut v, "POST", "/auth/token");
    push_base(&mut v, "POST", "/auth/authorize");
    push_base(&mut v, "POST", "/auth/revoke");
    proof {
        assert(string_views(v@) =~= global_endpoints());
    }
    let ghost g = string_views(v@);
    push_kind_block(&mut v, "areas");
    push_kind_block(&mut v, "components");
    push_kind_block(&mut v, "apps");
    push_kind_block(&mut v, "functions");
    push_pair(&mut v, "components", "GET", "/{id}/cyclic-subscriptions", "POST", "/{id}/cyclic-subscriptions");
    push_pair(&mut v, "apps", "GET", "/{id}/cyclic-subscriptions", "POST", "/{id}/cyclic-subscriptions");
    push_pair(&mut v, "functions", "GET", "/{id}/cyclic-subscriptions", "POST", "/{id}/cyclic-subscriptions");
    push_pair(&mut v, "apps", "GET", "/{id}/locks", "POST", "/{id}/locks");
    push_pair(&mut v, "components", "GET", "/{id}/locks", "POST", "/{id}/locks");
    push_pair(&mut v, "apps", "GET", "/{id}/bulk-data", "POST", "/{id}/bulk-data/{category_id}");
    push_pair(&mut v, "components", "GET", "/{id}/bulk-data", "POST", "/{id}/bulk-data/{category_id}");
    push_pair(&mut v, "apps", "GET", "/{id}/scripts", "POST", "/{id}/scripts");
    push_pair(&mut v, "components", "GET", "/{id}/scripts", "POST", "/{id}/scripts");
    push_pair(&mut v, "apps", "GET", "/{id}/status", "PUT", "/{id}/status/start");
    push_pair(&mut v, "components", "GET", "/{id}/status", "PUT", "/{id}/status/start");
    v
}

} // verus!
