use crate::error::RuleError;
use crate::hir::{Def, Expr, Item, Node};
use crate::paths::{qualified, referenced_at, referenced_in};
use crate::rule_finder::{found_at, found_in, Candidate};
use crate::span::{Span, SyntaxContext};
use crate::text::texts;
use vstd::prelude::*;

verus! {

/// The parts directly within a node.
pub open spec fn parts(node: Node) -> Seq<Node> {
    match node {
        Node::Item(item) => item.children@,
        Node::Body(body) => body.children@,
        Node::Expr(expr) => expr.children@,
        Node::Path(path) => path.children@,
    }
}

/// The node that a route leads to: its first number says which of the nodes, the next which part of
/// that, and so on.
pub open spec fn node_at(nodes: Seq<Node>, route: Seq<int>) -> Option<Node>
    decreases route.len(),
{
    if route.len() == 0 || !(0 <= route[0] < nodes.len()) {
        None
    } else if route.len() == 1 {
        Some(nodes[route[0]])
    } else {
        node_at(parts(nodes[route[0]]), route.skip(1))
    }
}

/// The node on a route after `n` of its numbers.
pub open spec fn on_route(nodes: Seq<Node>, route: Seq<int>, n: int) -> Option<Node> {
    node_at(nodes, route.take(n))
}

/// Whether the nearest item around the end of a route is `item`.
pub open spec fn is_nearest_item(nodes: Seq<Node>, route: Seq<int>, item: Item) -> bool {
    exists|n: int|
        {
            &&& 0 < n < route.len()
            &&& #[trigger] on_route(nodes, route, n) == Some(Node::Item(item))
            &&& forall|m: int|
                n < m < route.len() ==> !(#[trigger] on_route(nodes, route, m) matches Some(
                    Node::Item(_),
                ))
        }
}

/// Whether the nearest body around the end of a route has the number `id`.
pub open spec fn is_nearest_body(nodes: Seq<Node>, route: Seq<int>, id: usize) -> bool {
    exists|n: int|
        {
            &&& 0 < n < route.len()
            &&& #[trigger] on_route(nodes, route, n) matches Some(Node::Body(body)) && body.id == id
            &&& forall|m: int|
                n < m < route.len() ==> !(#[trigger] on_route(nodes, route, m) matches Some(
                    Node::Body(_),
                ))
        }
}

/// Whether there is no item around the end of a route.
pub open spec fn is_outside_items(nodes: Seq<Node>, route: Seq<int>) -> bool {
    forall|n: int|
        0 < n < route.len() ==> !(#[trigger] on_route(nodes, route, n) matches Some(Node::Item(_)))
}

/// Whether there is no body around the end of a route.
pub open spec fn is_outside_bodies(nodes: Seq<Node>, route: Seq<int>) -> bool {
    forall|n: int|
        0 < n < route.len() ==> !(#[trigger] on_route(nodes, route, n) matches Some(Node::Body(_)))
}

/// Whether an expression was written where its span says, and its span has all of `changed`.
pub open spec fn is_written_around(expr: Expr, changed: Span) -> bool {
    &&& expr.span.ctxt == SyntaxContext::Root
    &&& expr.span.lo <= changed.lo
    &&& changed.lo <= changed.hi
    &&& changed.hi <= expr.span.hi
}

/// Whether a route leads to an expression that was written around `changed`, and so was each
/// expression on the way but for those that a macro made.
pub open spec fn is_hit(nodes: Seq<Node>, route: Seq<int>, changed: Span) -> bool {
    &&& node_at(nodes, route) matches Some(Node::Expr(expr)) && is_written_around(expr, changed)
    &&& forall|n: int|
        0 < n < route.len() ==> (#[trigger] on_route(nodes, route, n) matches Some(Node::Expr(expr))
            ==> expr.span.ctxt != SyntaxContext::Root || is_written_around(expr, changed))
}

/// Whether one route comes before another when nodes are visited, each before its parts.
pub open spec fn is_visited_before(a: Seq<int>, b: Seq<int>) -> bool
    decreases b.len(),
{
    if b.len() == 0 {
        false
    } else if a.len() == 0 {
        true
    } else {
        a[0] < b[0] || (a[0] == b[0] && is_visited_before(a.skip(1), b.skip(1)))
    }
}

/// Whether a route is the last one that leads to an expression written around `changed`.
pub open spec fn is_last_hit(nodes: Seq<Node>, route: Seq<int>, changed: Span) -> bool {
    &&& is_hit(nodes, route, changed)
    &&& forall|other: Seq<int>| #[trigger]
        is_hit(nodes, other, changed) ==> other == route || is_visited_before(other, route)
}

/// The nearest item around the end of a route, or `outer`.
spec fn item_around(nodes: Seq<Node>, route: Seq<int>, outer: Option<Item>) -> Option<Item>
    decreases route.len(),
{
    if route.len() <= 1 {
        outer
    } else {
        item_around(
            parts(nodes[route[0]]),
            route.skip(1),
            match nodes[route[0]] {
                Node::Item(item) => Some(item),
                _ => outer,
            },
        )
    }
}

/// The nearest body around the end of a route, or `outer`.
spec fn body_around(nodes: Seq<Node>, route: Seq<int>, outer: Option<usize>) -> Option<usize>
    decreases route.len(),
{
    if route.len() <= 1 {
        outer
    } else {
        body_around(
            parts(nodes[route[0]]),
            route.skip(1),
            match nodes[route[0]] {
                Node::Body(body) => Some(body.id),
                _ => outer,
            },
        )
    }
}

/// What stands on a route behind its first number is what stands on the rest of it.
proof fn lemma_on_rest(nodes: Seq<Node>, route: Seq<int>, n: int)
    requires
        0 < n < route.len(),
        0 <= route[0] < nodes.len(),
    ensures
        on_route(nodes, route, n + 1) == on_route(parts(nodes[route[0]]), route.skip(1), n),
        on_route(nodes, route, 1) == Some(nodes[route[0]]),
{
    assert(route.take(n + 1).skip(1) =~= route.skip(1).take(n));
    assert(route.take(n + 1)[0] == route[0]);
    assert(route.take(1)[0] == route[0]);
}

proof fn lemma_items_around(nodes: Seq<Node>, route: Seq<int>, outer: Option<Item>)
    requires
        node_at(nodes, route) is Some,
    ensures
        is_outside_items(nodes, route) ==> item_around(nodes, route, outer) == outer,
        !is_outside_items(nodes, route) ==> item_around(nodes, route, outer) is Some
            && is_nearest_item(nodes, route, item_around(nodes, route, outer)->0),
    decreases route.len(),
{
    if route.len() > 1 {
        let node = nodes[route[0]];
        let rest = route.skip(1);
        let inner = match node {
            Node::Item(item) => Some(item),
            _ => outer,
        };
        lemma_items_around(parts(node), rest, inner);
        lemma_on_rest(nodes, route, 1);
        assert(on_route(nodes, route, 1) == Some(node));
        assert forall|n: int| 0 < n < rest.len() implies #[trigger] on_route(parts(node), rest, n)
            == on_route(nodes, route, n + 1) by {
            lemma_on_rest(nodes, route, n);
        }
        if is_outside_items(parts(node), rest) {
            assert forall|m: int| 1 < m < route.len() implies !(#[trigger] on_route(
                nodes,
                route,
                m,
            ) matches Some(Node::Item(_))) by {
                lemma_on_rest(nodes, route, m - 1);
                assert(!(on_route(parts(node), rest, m - 1) matches Some(Node::Item(_))));
            }
            if let Node::Item(item) = node {
                assert(on_route(nodes, route, 1) == Some(Node::Item(item)));
                assert(is_nearest_item(nodes, route, item));
            } else {
                assert(is_outside_items(nodes, route));
            }
        } else {
            let item = item_around(parts(node), rest, inner)->0;
            let n = choose|n: int|
                {
                    &&& 0 < n < rest.len()
                    &&& #[trigger] on_route(parts(node), rest, n) == Some(Node::Item(item))
                    &&& forall|m: int|
                        n < m < rest.len() ==> !(#[trigger] on_route(
                            parts(node),
                            rest,
                            m,
                        ) matches Some(Node::Item(_)))
                };
            lemma_on_rest(nodes, route, n);
            assert(on_route(nodes, route, n + 1) == Some(Node::Item(item)));
            assert forall|m: int| n + 1 < m < route.len() implies !(#[trigger] on_route(
                nodes,
                route,
                m,
            ) matches Some(Node::Item(_))) by {
                lemma_on_rest(nodes, route, m - 1);
                assert(!(on_route(parts(node), rest, m - 1) matches Some(Node::Item(_))));
            }
            assert(is_nearest_item(nodes, route, item));
        }
    }
}

proof fn lemma_bodies_around(nodes: Seq<Node>, route: Seq<int>, outer: Option<usize>)
    requires
        node_at(nodes, route) is Some,
    ensures
        is_outside_bodies(nodes, route) ==> body_around(nodes, route, outer) == outer,
        !is_outside_bodies(nodes, route) ==> body_around(nodes, route, outer) is Some
            && is_nearest_body(nodes, route, body_around(nodes, route, outer)->0),
    decreases route.len(),
{
    if route.len() > 1 {
        let node = nodes[route[0]];
        let rest = route.skip(1);
        let inner = match node {
            Node::Body(body) => Some(body.id),
            _ => outer,
        };
        lemma_bodies_around(parts(node), rest, inner);
        lemma_on_rest(nodes, route, 1);
        assert(on_route(nodes, route, 1) == Some(node));
        if is_outside_bodies(parts(node), rest) {
            assert forall|m: int| 1 < m < route.len() implies !(#[trigger] on_route(
                nodes,
                route,
                m,
            ) matches Some(Node::Body(_))) by {
                lemma_on_rest(nodes, route, m - 1);
                assert(!(on_route(parts(node), rest, m - 1) matches Some(Node::Body(_))));
            }
            if let Node::Body(body) = node {
                assert(on_route(nodes, route, 1) == Some(Node::Body(body)));
                assert(is_nearest_body(nodes, route, body.id));
            } else {
                assert(is_outside_bodies(nodes, route));
            }
        } else {
            let id = body_around(parts(node), rest, inner)->0;
            let n = choose|n: int|
                {
                    &&& 0 < n < rest.len()
                    &&& #[trigger] on_route(parts(node), rest, n) matches Some(Node::Body(body))
                        && body.id == id
                    &&& forall|m: int|
                        n < m < rest.len() ==> !(#[trigger] on_route(
                            parts(node),
                            rest,
                            m,
                        ) matches Some(Node::Body(_)))
                };
            lemma_on_rest(nodes, route, n);
            assert(on_route(nodes, route, n + 1) matches Some(Node::Body(body)) && body.id == id);
            assert forall|m: int| n + 1 < m < route.len() implies !(#[trigger] on_route(
                nodes,
                route,
                m,
            ) matches Some(Node::Body(_))) by {
                lemma_on_rest(nodes, route, m - 1);
                assert(!(on_route(parts(node), rest, m - 1) matches Some(Node::Body(_))));
            }
            assert(is_nearest_body(nodes, route, id));
        }
    }
}

/// Whether the parts of a node are looked at for expressions around `changed`.
spec fn is_entered(node: Node, changed: Span) -> bool {
    node matches Node::Expr(expr) ==> expr.span.ctxt != SyntaxContext::Root || is_written_around(
        expr,
        changed,
    )
}

/// A route that goes on behind its first number leads to a hit if that node is entered and the rest
/// leads to a hit within it.
proof fn lemma_hit_within(nodes: Seq<Node>, route: Seq<int>, changed: Span)
    requires
        route.len() > 1,
        0 <= route[0] < nodes.len(),
    ensures
        is_hit(nodes, route, changed) <==> is_entered(nodes[route[0]], changed) && is_hit(
            parts(nodes[route[0]]),
            route.skip(1),
            changed,
        ),
{
    let node = nodes[route[0]];
    let rest = route.skip(1);
    lemma_on_rest(nodes, route, 1);
    if is_hit(nodes, route, changed) {
        assert(on_route(nodes, route, 1) == Some(node));
        assert forall|n: int| 0 < n < rest.len() implies (#[trigger] on_route(
            parts(node),
            rest,
            n,
        ) matches Some(Node::Expr(expr)) ==> expr.span.ctxt != SyntaxContext::Root
            || is_written_around(expr, changed)) by {
            lemma_on_rest(nodes, route, n);
            let _ = on_route(nodes, route, n + 1);
        }
    }
    if is_entered(node, changed) && is_hit(parts(node), rest, changed) {
        assert forall|n: int| 0 < n < route.len() implies (#[trigger] on_route(
            nodes,
            route,
            n,
        ) matches Some(Node::Expr(expr)) ==> expr.span.ctxt != SyntaxContext::Root
            || is_written_around(expr, changed)) by {
            if n > 1 {
                lemma_on_rest(nodes, route, n - 1);
                let _ = on_route(parts(node), rest, n - 1);
            }
        }
    }
}

proof fn lemma_hit_directly(nodes: Seq<Node>, route: Seq<int>, changed: Span)
    requires
        route.len() == 1,
    ensures
        is_hit(nodes, route, changed) <==> 0 <= route[0] < nodes.len() && (
        nodes[route[0]] matches Node::Expr(expr) && is_written_around(expr, changed)),
{
}

/// A hit depends on the node that its route starts with, and not on the place of that node.
proof fn lemma_hit_moves(
    a: Seq<Node>,
    b: Seq<Node>,
    route: Seq<int>,
    moved: Seq<int>,
    changed: Span,
)
    requires
        route.len() > 0,
        moved.len() == route.len(),
        moved.skip(1) == route.skip(1),
        0 <= route[0] < a.len(),
        0 <= moved[0] < b.len(),
        a[route[0]] == b[moved[0]],
    ensures
        is_hit(a, route, changed) <==> is_hit(b, moved, changed),
        node_at(a, route) == node_at(b, moved),
        forall|outer: Option<Item>| #[trigger]
            item_around(a, route, outer) == item_around(b, moved, outer),
        forall|outer: Option<usize>| #[trigger]
            body_around(a, route, outer) == body_around(b, moved, outer),
{
    if route.len() > 1 {
        lemma_hit_within(a, route, changed);
        lemma_hit_within(b, moved, changed);
    } else {
        lemma_hit_directly(a, route, changed);
        lemma_hit_directly(b, moved, changed);
    }
}

/// The candidate that a route leads to.
spec fn candidate_at<'a>(
    nodes: Seq<Node>,
    route: Seq<int>,
    item: Option<&'a Item>,
    body: Option<usize>,
) -> Candidate<'a> {
    Candidate::Expr(
        &(node_at(nodes, route)->0->Expr_0),
        body_around(nodes, route, body)->0,
        &(item_around(nodes, route, plain(item))->0),
    )
}

spec fn plain<'a>(item: Option<&'a Item>) -> Option<Item> {
    match item {
        Some(item) => Some(*item),
        None => None,
    }
}

/// Whether there are an item and a body around the end of a route.
spec fn has_owner<'a>(
    nodes: Seq<Node>,
    route: Seq<int>,
    item: Option<&'a Item>,
    body: Option<usize>,
) -> bool {
    item_around(nodes, route, plain(item)) is Some && body_around(nodes, route, body) is Some
}

/// What a search of nodes has to come to.
spec fn is_due<'a>(
    nodes: Seq<Node>,
    changed: Span,
    item: Option<&'a Item>,
    body: Option<usize>,
    before: Candidate<'a>,
    r: Result<Candidate<'a>, RuleError>,
) -> bool {
    match r {
        Ok(candidate) => {
            &&& forall|route: Seq<int>| #[trigger]
                is_hit(nodes, route, changed) ==> has_owner(nodes, route, item, body)
            &&& {
                ||| candidate == before && forall|route: Seq<int>| !is_hit(nodes, route, changed)
                ||| exists|route: Seq<int>| #[trigger]
                    is_last_hit(nodes, route, changed) && candidate == candidate_at(
                        nodes,
                        route,
                        item,
                        body,
                    )
            }
        },
        Err(e) => e == RuleError::OutsideBody && exists|route: Seq<int>| #[trigger]
            is_hit(nodes, route, changed) && !has_owner(nodes, route, item, body),
    }
}

spec fn from_part(k: int, route: Seq<int>) -> Seq<int> {
    seq![k] + route
}

proof fn lemma_found_in_is_due<'a>(
    nodes: Seq<Node>,
    changed: Span,
    item: Option<&'a Item>,
    body: Option<usize>,
    before: Candidate<'a>,
)
    ensures
        is_due(
            nodes,
            changed,
            item,
            body,
            before,
            found_in(nodes, changed, item, body, before),
        ),
    decreases nodes,
{
    if nodes.len() == 0 {
        assert forall|route: Seq<int>| !is_hit(nodes, route, changed) by {}
    } else {
        let k = nodes.len() - 1;
        let earlier = nodes.drop_last();
        let one = seq![nodes.last()];
        lemma_found_in_is_due(earlier, changed, item, body, before);
        let first = found_in(earlier, changed, item, body, before);
        // Routes into the earlier nodes, and routes into the last one.
        assert forall|route: Seq<int>| route.len() > 0 && 0 <= route[0] < k implies {
            &&& is_hit(nodes, route, changed) <==> #[trigger] is_hit(earlier, route, changed)
            &&& node_at(nodes, route) == node_at(earlier, route)
            &&& has_owner(nodes, route, item, body) == has_owner(earlier, route, item, body)
            &&& candidate_at(nodes, route, item, body) == candidate_at(earlier, route, item, body)
        } by {
            lemma_hit_moves(nodes, earlier, route, route, changed);
            let _ = item_around(nodes, route, plain(item));
            let _ = body_around(nodes, route, body);
        }
        assert forall|route: Seq<int>| route.len() > 0 && route[0] == 0 implies {
            let moved = from_part(k, route.skip(1));
            &&& is_hit(nodes, moved, changed) <==> #[trigger] is_hit(one, route, changed)
            &&& has_owner(nodes, moved, item, body) == has_owner(one, route, item, body)
            &&& candidate_at(nodes, moved, item, body) == candidate_at(one, route, item, body)
        } by {
            let moved = from_part(k, route.skip(1));
            assert(moved.skip(1) =~= route.skip(1));
            lemma_hit_moves(nodes, one, moved, route, changed);
            let _ = item_around(nodes, moved, plain(item));
            let _ = body_around(nodes, moved, body);
        }
        // Every hit is one of the two.
        assert forall|route: Seq<int>| #[trigger] is_hit(nodes, route, changed) implies {
            ||| is_hit(earlier, route, changed) && route[0] < k
            ||| route[0] == k && is_hit(one, from_part(0, route.skip(1)), changed) && route
                == from_part(k, from_part(0, route.skip(1)).skip(1))
        } by {
            if route[0] == k {
                let there = from_part(0, route.skip(1));
                assert(there.skip(1) =~= route.skip(1));
                assert(from_part(k, there.skip(1)) =~= route);
                assert(is_hit(one, there, changed) <==> is_hit(nodes, route, changed));
            }
        }
        match first {
            Err(e) => {
                let route = choose|route: Seq<int>| #[trigger]
                    is_hit(earlier, route, changed) && !has_owner(earlier, route, item, body);
                assert(is_hit(nodes, route, changed) && !has_owner(nodes, route, item, body));
            },
            Ok(so_far) => {
                lemma_found_at_is_due(nodes.last(), changed, item, body, so_far);
                let r = found_at(nodes.last(), changed, item, body, so_far);
                assert(found_in(nodes, changed, item, body, before) == r);
                match r {
                    Err(e) => {
                        let route = choose|route: Seq<int>| #[trigger]
                            is_hit(one, route, changed) && !has_owner(one, route, item, body);
                        let moved = from_part(k, route.skip(1));
                        assert(is_hit(nodes, moved, changed) && !has_owner(
                            nodes,
                            moved,
                            item,
                            body,
                        ));
                    },
                    Ok(candidate) => {
                        assert forall|route: Seq<int>| #[trigger]
                            is_hit(nodes, route, changed) implies has_owner(
                            nodes,
                            route,
                            item,
                            body,
                        ) by {
                            if route[0] == k {
                                let there = from_part(0, route.skip(1));
                                assert(has_owner(one, there, item, body));
                            } else {
                                assert(has_owner(earlier, route, item, body));
                            }
                        }
                        if exists|route: Seq<int>| is_hit(one, route, changed) {
                            let route = choose|route: Seq<int>| #[trigger]
                                is_last_hit(one, route, changed) && candidate == candidate_at(
                                    one,
                                    route,
                                    item,
                                    body,
                                );
                            let moved = from_part(k, route.skip(1));
                            assert forall|other: Seq<int>| #[trigger]
                                is_hit(nodes, other, changed) implies other == moved
                                || is_visited_before(other, moved) by {
                                if other[0] == k {
                                    let there = from_part(0, other.skip(1));
                                    assert(is_hit(one, there, changed));
                                    assert(there.skip(1) =~= other.skip(1));
                                    assert(moved.skip(1) =~= route.skip(1));
                                    assert(route =~= from_part(0, route.skip(1)));
                                    assert(other =~= from_part(k, other.skip(1)));
                                }
                            }
                            assert(is_last_hit(nodes, moved, changed));
                        } else {
                            assert(candidate == so_far);
                            if exists|route: Seq<int>| is_hit(earlier, route, changed) {
                                let route = choose|route: Seq<int>| #[trigger]
                                    is_last_hit(earlier, route, changed) && so_far == candidate_at(
                                        earlier,
                                        route,
                                        item,
                                        body,
                                    );
                                assert(is_last_hit(nodes, route, changed));
                            } else {
                                assert forall|route: Seq<int>| !is_hit(nodes, route, changed) by {}
                            }
                        }
                    },
                }
            },
        }
    }
}

proof fn lemma_found_at_is_due<'a>(
    node: Node,
    changed: Span,
    item: Option<&'a Item>,
    body: Option<usize>,
    before: Candidate<'a>,
)
    ensures
        is_due(
            seq![node],
            changed,
            item,
            body,
            before,
            found_at(node, changed, item, body, before),
        ),
    decreases node,
{
    let one = seq![node];
    let within = parts(node);
    let (inner_item, inner_body) = match node {
        Node::Item(inner) => (Some(&inner), body),
        Node::Body(inner) => (item, Some(inner.id)),
        _ => (item, body),
    };
    let itself = seq![0int];
    // Routes into the node go on with a route within it.
    assert forall|route: Seq<int>| route.len() > 0 implies {
        let whole = from_part(0, route);
        &&& is_hit(one, whole, changed) <==> is_entered(node, changed) && #[trigger] is_hit(
            within,
            route,
            changed,
        )
        &&& has_owner(one, whole, item, body) == has_owner(within, route, inner_item, inner_body)
        &&& candidate_at(one, whole, item, body) == candidate_at(
            within,
            route,
            inner_item,
            inner_body,
        )
    } by {
        let whole = from_part(0, route);
        assert(whole.skip(1) =~= route);
        lemma_hit_within(one, whole, changed);
    }
    assert forall|route: Seq<int>| #[trigger] is_hit(one, route, changed) implies {
        ||| route == itself
        ||| route == from_part(0, route.skip(1)) && route.skip(1).len() > 0 && is_hit(
            within,
            route.skip(1),
            changed,
        ) && is_entered(node, changed)
    } by {
        if route.len() == 1 {
            assert(route =~= itself);
        } else {
            assert(route =~= from_part(0, route.skip(1)));
            lemma_hit_within(one, route, changed);
        }
    }
    lemma_hit_directly(one, itself, changed);
    if is_entered(node, changed) {
        let is_itself_hit = is_hit(one, itself, changed);
        if is_itself_hit && !has_owner(one, itself, item, body) {
            assert(found_at(node, changed, item, body, before) == Err::<Candidate<'a>, RuleError>(
                RuleError::OutsideBody,
            ));
        } else {
            let start = if is_itself_hit {
                candidate_at(one, itself, item, body)
            } else {
                before
            };
            lemma_found_in_is_due(within, changed, inner_item, inner_body, start);
            let r = found_in(within, changed, inner_item, inner_body, start);
            assert(found_at(node, changed, item, body, before) == r);
            match r {
                Err(e) => {
                    let route = choose|route: Seq<int>| #[trigger]
                        is_hit(within, route, changed) && !has_owner(
                            within,
                            route,
                            inner_item,
                            inner_body,
                        );
                    let whole = from_part(0, route);
                    assert(is_hit(one, whole, changed) && !has_owner(one, whole, item, body));
                },
                Ok(candidate) => {
                    assert forall|route: Seq<int>| #[trigger]
                        is_hit(one, route, changed) implies has_owner(one, route, item, body) by {
                        if route != itself {
                            assert(has_owner(within, route.skip(1), inner_item, inner_body));
                        }
                    }
                    if exists|route: Seq<int>| is_hit(within, route, changed) {
                        let route = choose|route: Seq<int>| #[trigger]
                            is_last_hit(within, route, changed) && candidate == candidate_at(
                                within,
                                route,
                                inner_item,
                                inner_body,
                            );
                        let whole = from_part(0, route);
                        assert(whole.skip(1) =~= route);
                        assert forall|other: Seq<int>| #[trigger]
                            is_hit(one, other, changed) implies other == whole
                            || is_visited_before(other, whole) by {
                            if other == itself {
                                assert(itself.skip(1) =~= Seq::empty());
                                assert(is_visited_before(itself.skip(1), route));
                            } else {
                                assert(is_hit(within, other.skip(1), changed));
                            }
                        }
                        assert(is_last_hit(one, whole, changed));
                    } else if is_itself_hit {
                        assert(is_last_hit(one, itself, changed));
                    } else {
                        assert forall|route: Seq<int>| !is_hit(one, route, changed) by {}
                    }
                },
            }
        }
    } else {
        assert forall|route: Seq<int>| !is_hit(one, route, changed) by {}
    }
}

/// The search finds the last expression, in the order of visits, that was written around the
/// changed part and lies within no other written expression but such ones. No such expression lies
/// within it then. It comes with the nearest item and the nearest body around it. The search fails
/// only if such an expression has no item or no body around it.
pub proof fn law_search_finds_expression_with_nearest_owners(nodes: Seq<Node>, changed: Span)
    ensures
        match found_in(nodes, changed, None, None, Candidate::NotFound) {
            Ok(Candidate::NotFound) => forall|route: Seq<int>| !is_hit(nodes, route, changed),
            Ok(Candidate::Expr(expr, id, item)) => {
                &&& exists|route: Seq<int>|
                    {
                        &&& #[trigger] is_last_hit(nodes, route, changed)
                        &&& node_at(nodes, route) == Some(Node::Expr(*expr))
                        &&& is_nearest_item(nodes, route, *item)
                        &&& is_nearest_body(nodes, route, id)
                    }
                &&& forall|route: Seq<int>| #[trigger]
                    is_hit(nodes, route, changed) ==> !is_outside_items(nodes, route)
                        && !is_outside_bodies(nodes, route)
            },
            Err(e) => e == RuleError::OutsideBody && exists|route: Seq<int>| #[trigger]
                is_hit(nodes, route, changed) && (is_outside_items(nodes, route)
                    || is_outside_bodies(nodes, route)),
        },
{
    lemma_found_in_is_due(nodes, changed, None, None, Candidate::NotFound);
    assert forall|route: Seq<int>| #[trigger] is_hit(nodes, route, changed) implies has_owner(
        nodes,
        route,
        None,
        None,
    ) == (!is_outside_items(nodes, route) && !is_outside_bodies(nodes, route)) by {
        lemma_items_around(nodes, route, None);
        lemma_bodies_around(nodes, route, None);
    }
    if let Ok(Candidate::Expr(expr, id, item)) = found_in(
        nodes,
        changed,
        None,
        None,
        Candidate::NotFound,
    ) {
        let route = choose|route: Seq<int>| #[trigger]
            is_last_hit(nodes, route, changed) && Candidate::Expr(expr, id, item) == candidate_at(
                nodes,
                route,
                None,
                None,
            );
        lemma_items_around(nodes, route, None);
        lemma_bodies_around(nodes, route, None);
    }
}

/// Whether a definition is one of those that an import can name.
pub open spec fn is_item_definition(def: Def) -> bool {
    ||| def == Def::Mod
    ||| def == Def::Struct
    ||| def == Def::Union
    ||| def == Def::Enum
    ||| def == Def::Variant
    ||| def == Def::Trait
    ||| def == Def::TyAlias
    ||| def == Def::TyForeign
    ||| def == Def::Fn
    ||| def == Def::Const
    ||| def == Def::Static
    ||| def == Def::StructCtor
    ||| def == Def::VariantCtor
}

/// A rule can import what an import can name, each of these kinds and no other.
pub proof fn law_import_goes_by_kind_of_definition(def: Def)
    ensures
        def.importable() <==> is_item_definition(def),
{
}

/// Names one behind the other, each with two colons before it.
pub open spec fn path_text(names: Seq<String>) -> Seq<char>
    decreases names.len(),
{
    if names.len() == 0 {
        Seq::empty()
    } else {
        "::"@ + names[0]@ + path_text(names.skip(1))
    }
}

/// Whether a route leads to a path that an import can name, which is written `text`, and does not
/// lead through the generic arguments of another path.
pub open spec fn names_import(nodes: Seq<Node>, route: Seq<int>, text: Seq<char>) -> bool {
    &&& node_at(nodes, route) matches Some(Node::Path(path)) && is_item_definition(path.def)
        && text == path_text(path.components@)
    &&& forall|n: int|
        0 < n < route.len() ==> !(#[trigger] on_route(nodes, route, n) matches Some(Node::Path(_)))
}

proof fn lemma_path_text(names: Seq<String>)
    ensures
        qualified(texts(names)) == path_text(names),
    decreases names.len(),
{
    if names.len() > 0 {
        lemma_path_text_from_behind(names);
        lemma_path_text(names.drop_last());
        assert(texts(names).drop_last() =~= texts(names.drop_last()));
    }
}

proof fn lemma_path_text_from_behind(names: Seq<String>)
    requires
        names.len() > 0,
    ensures
        path_text(names) == path_text(names.drop_last()) + "::"@ + names.last()@,
    decreases names.len(),
{
    if names.len() == 1 {
        assert(names.skip(1) =~= Seq::empty());
        assert(names.drop_last() =~= Seq::empty());
        assert(path_text(names) =~= path_text(names.drop_last()) + "::"@ + names.last()@);
    } else {
        let rest = names.skip(1);
        lemma_path_text_from_behind(rest);
        assert(rest.drop_last() =~= names.drop_last().skip(1));
        assert(rest.last() == names.last());
        assert(path_text(names) =~= path_text(names.drop_last()) + "::"@ + names.last()@);
    }
}

proof fn lemma_import_within(nodes: Seq<Node>, route: Seq<int>, text: Seq<char>)
    requires
        route.len() > 1,
        0 <= route[0] < nodes.len(),
    ensures
        names_import(nodes, route, text) <==> !(nodes[route[0]] is Path) && names_import(
            parts(nodes[route[0]]),
            route.skip(1),
            text,
        ),
{
    let node = nodes[route[0]];
    let rest = route.skip(1);
    lemma_on_rest(nodes, route, 1);
    if names_import(nodes, route, text) {
        assert(on_route(nodes, route, 1) == Some(node));
        assert forall|n: int| 0 < n < rest.len() implies !(#[trigger] on_route(
            parts(node),
            rest,
            n,
        ) matches Some(Node::Path(_))) by {
            lemma_on_rest(nodes, route, n);
            let _ = on_route(nodes, route, n + 1);
        }
    }
    if !(node is Path) && names_import(parts(node), rest, text) {
        assert forall|n: int| 0 < n < route.len() implies !(#[trigger] on_route(
            nodes,
            route,
            n,
        ) matches Some(Node::Path(_))) by {
            if n > 1 {
                lemma_on_rest(nodes, route, n - 1);
                let _ = on_route(parts(node), rest, n - 1);
            }
        }
    }
}

proof fn lemma_import_moves(
    a: Seq<Node>,
    b: Seq<Node>,
    route: Seq<int>,
    moved: Seq<int>,
    text: Seq<char>,
)
    requires
        route.len() > 0,
        moved.len() == route.len(),
        moved.skip(1) == route.skip(1),
        0 <= route[0] < a.len(),
        0 <= moved[0] < b.len(),
        a[route[0]] == b[moved[0]],
    ensures
        names_import(a, route, text) <==> names_import(b, moved, text),
{
    if route.len() > 1 {
        lemma_import_within(a, route, text);
        lemma_import_within(b, moved, text);
    }
}

/// The paths that a rule about an expression has to import are those that the expression names and
/// an import can name, and no others. What stands in the generic arguments of a path does not
/// count.
pub proof fn law_imports_are_the_named_paths(nodes: Seq<Node>, text: Seq<char>)
    ensures
        referenced_in(nodes).contains(text) <==> exists|route: Seq<int>| #[trigger]
            names_import(nodes, route, text),
    decreases nodes,
{
    if nodes.len() > 0 {
        let k = nodes.len() - 1;
        let earlier = nodes.drop_last();
        let one = seq![nodes.last()];
        law_imports_are_the_named_paths(earlier, text);
        lemma_imports_at(nodes.last(), text);
        if referenced_in(earlier).contains(text) {
            let route = choose|route: Seq<int>| #[trigger] names_import(earlier, route, text);
            lemma_import_moves(earlier, nodes, route, route, text);
            assert(names_import(nodes, route, text));
        } else if referenced_at(nodes.last()).contains(text) {
            let route = choose|route: Seq<int>| #[trigger] names_import(one, route, text);
            let moved = from_part(k, route.skip(1));
            assert(moved.skip(1) =~= route.skip(1));
            lemma_import_moves(one, nodes, route, moved, text);
            assert(names_import(nodes, moved, text));
        }
        if exists|route: Seq<int>| #[trigger] names_import(nodes, route, text) {
            let route = choose|route: Seq<int>| #[trigger] names_import(nodes, route, text);
            if route[0] < k {
                lemma_import_moves(nodes, earlier, route, route, text);
                assert(names_import(earlier, route, text));
            } else {
                let moved = from_part(0, route.skip(1));
                assert(moved.skip(1) =~= route.skip(1));
                lemma_import_moves(nodes, one, route, moved, text);
                assert(names_import(one, moved, text));
            }
        }
    } else {
        assert forall|route: Seq<int>| !names_import(nodes, route, text) by {}
    }
}

proof fn lemma_imports_at(node: Node, text: Seq<char>)
    ensures
        referenced_at(node).contains(text) <==> exists|route: Seq<int>| #[trigger]
            names_import(seq![node], route, text),
    decreases node,
{
    let one = seq![node];
    if let Node::Path(path) = node {
        lemma_path_text(path.components@);
        let itself = seq![0int];
        if referenced_at(node).contains(text) {
            assert(names_import(one, itself, text));
        }
        if exists|route: Seq<int>| #[trigger] names_import(one, route, text) {
            let route = choose|route: Seq<int>| #[trigger] names_import(one, route, text);
            if route.len() > 1 {
                lemma_import_within(one, route, text);
            }
        }
    } else {
        law_imports_are_the_named_paths(parts(node), text);
        if referenced_at(node).contains(text) {
            let route = choose|route: Seq<int>| #[trigger] names_import(parts(node), route, text);
            let whole = from_part(0, route);
            assert(whole.skip(1) =~= route);
            lemma_import_within(one, whole, text);
            assert(names_import(one, whole, text));
        }
        if exists|route: Seq<int>| #[trigger] names_import(one, route, text) {
            let route = choose|route: Seq<int>| #[trigger] names_import(one, route, text);
            assert(route.len() > 1);
            lemma_import_within(one, route, text);
            assert(names_import(parts(node), route.skip(1), text));
        }
    }
}

} // verus!
