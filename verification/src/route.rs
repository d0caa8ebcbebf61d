//! Which page a request asks for.
use vstd::prelude::*;
use vstd::slice::slice_to_vec;
use crate::bytes::bytes_eq;
use crate::http::{is_segment, lemma_split_joined_path, path_segments, slash_join, split_path, vec_views};

verus! {

/// What a request asks for.
#[derive(Clone, Debug, PartialEq, Eq)]
pub enum Route {
    /// The front page.
    Index,
    /// The feed page, after the feed is brought up to date.
    Feed,
    /// The formula page, after it is typeset again.
    Math,
    /// The post with this name.
    Blog(Vec<u8>),
    /// A new source for the post with this name; the source is the
    /// request's body.
    Post(Vec<u8>),
    /// The edit form of the post with this name.
    Edit(Vec<u8>),
    /// The style sheet.
    Style,
    /// The icon.
    Favicon,
}

/// A `Route` as plain values.
pub enum RouteView {
    Index,
    Feed,
    Math,
    Blog(Seq<u8>),
    Post(Seq<u8>),
    Edit(Seq<u8>),
    Style,
    Favicon,
}

impl View for Route {
    type V = RouteView;

    open spec fn view(&self) -> RouteView {
        match self {
            Route::Index => RouteView::Index,
            Route::Feed => RouteView::Feed,
            Route::Math => RouteView::Math,
            Route::Blog(s) => RouteView::Blog(s@),
            Route::Post(s) => RouteView::Post(s@),
            Route::Edit(s) => RouteView::Edit(s@),
            Route::Style => RouteView::Style,
            Route::Favicon => RouteView::Favicon,
        }
    }
}

/// Where a request with this method and these path segments goes: by the
/// first segment; `blog` and `edit` take the post's name from the second
/// (without one, the front page); a `blog` request is a post's page when
/// its method is `GET` and its new source otherwise; anything unknown is
/// the front page.
pub open spec fn route_of(method: Seq<u8>, segs: Seq<Seq<u8>>) -> RouteView {
    if segs.len() == 0 {
        RouteView::Index
    } else if segs[0] == seq![102u8, 101, 101, 100] {
        RouteView::Feed
    } else if segs[0] == seq![109u8, 97, 116, 104] {
        RouteView::Math
    } else if segs[0] == seq![98u8, 108, 111, 103] {
        if segs.len() >= 2 {
            if method == seq![71u8, 69, 84] {
                RouteView::Blog(segs[1])
            } else {
                RouteView::Post(segs[1])
            }
        } else {
            RouteView::Index
        }
    } else if segs[0] == seq![101u8, 100, 105, 116] {
        if segs.len() >= 2 {
            RouteView::Edit(segs[1])
        } else {
            RouteView::Index
        }
    } else if segs[0] == seq![115u8, 116, 121, 108, 101, 46, 99, 115, 115] {
        RouteView::Style
    } else if segs[0] == seq![102u8, 97, 118, 105, 99, 111, 110, 46, 105, 99, 111] {
        RouteView::Favicon
    } else {
        RouteView::Index
    }
}

/// Where a request with this method and path goes, as `route_of` says.
pub fn route_request(method: &[u8], path: &[u8]) -> (r: Route)
    ensures
        r@ == route_of(method@, path_segments(path@)),
{
    let segs = split_path(path);
    let ghost sv = vec_views(segs@);
    assert(sv == path_segments(path@));
    if segs.len() == 0 {
        return Route::Index;
    }
    let first = segs[0].as_slice();
    assert(first@ == sv[0]);
    let feed: &[u8] = &[102u8, 101, 101, 100];
    let math: &[u8] = &[109u8, 97, 116, 104];
    let blog: &[u8] = &[98u8, 108, 111, 103];
    let edit: &[u8] = &[101u8, 100, 105, 116];
    let style: &[u8] = &[115u8, 116, 121, 108, 101, 46, 99, 115, 115];
    let icon: &[u8] = &[102u8, 97, 118, 105, 99, 111, 110, 46, 105, 99, 111];
    let get: &[u8] = &[71u8, 69, 84];
    assert(feed@ =~= seq![102u8, 101, 101, 100]);
    assert(math@ =~= seq![109u8, 97, 116, 104]);
    assert(blog@ =~= seq![98u8, 108, 111, 103]);
    assert(edit@ =~= seq![101u8, 100, 105, 116]);
    assert(style@ =~= seq![115u8, 116, 121, 108, 101, 46, 99, 115, 115]);
    assert(icon@ =~= seq![102u8, 97, 118, 105, 99, 111, 110, 46, 105, 99, 111]);
    assert(get@ =~= seq![71u8, 69, 84]);
    if bytes_eq(first, feed) {
        Route::Feed
    } else if bytes_eq(first, math) {
        Route::Math
    } else if bytes_eq(first, blog) {
        if segs.len() >= 2 {
            let name = slice_to_vec(segs[1].as_slice());
            assert(name@ == sv[1]);
            if bytes_eq(method, get) {
                Route::Blog(name)
            } else {
                Route::Post(name)
            }
        } else {
            Route::Index
        }
    } else if bytes_eq(first, edit) {
        if segs.len() >= 2 {
            let name = slice_to_vec(segs[1].as_slice());
            assert(name@ == sv[1]);
            Route::Edit(name)
        } else {
            Route::Index
        }
    } else if bytes_eq(first, style) {
        Route::Style
    } else if bytes_eq(first, icon) {
        Route::Favicon
    } else {
        Route::Index
    }
}

proof fn lemma_two_segments(a: Seq<u8>, slug: Seq<u8>)
    requires
        is_segment(a),
        is_segment(slug),
    ensures
        path_segments(seq![0x2fu8] + a + seq![0x2fu8] + slug) == seq![a, slug],
{
    let segs = seq![a, slug];
    assert forall|k: int| 0 <= k < segs.len() implies is_segment(#[trigger] segs[k]) by {}
    lemma_split_joined_path(segs);
    assert(segs.drop_first() =~= seq![slug]);
    assert(segs.drop_first().drop_first() =~= Seq::<Seq<u8>>::empty());
    assert(seq![slug].drop_first() =~= Seq::<Seq<u8>>::empty());
    assert(slash_join(Seq::<Seq<u8>>::empty()) == Seq::<u8>::empty());
    assert(slash_join(seq![slug]) == seq![0x2fu8] + seq![slug][0] + slash_join(seq![slug].drop_first()));
    assert(slash_join(seq![slug]) =~= seq![0x2fu8] + slug);
    assert(slash_join(segs) == seq![0x2fu8] + segs[0] + slash_join(segs.drop_first()));
    assert(slash_join(segs) =~= seq![0x2fu8] + a + seq![0x2fu8] + slug);
}

/// A post's addresses reach it under its own name: `GET /blog/{name}`
/// asks for the post's page, any other method on that address sends its
/// new source, and `/edit/{name}` asks for its edit form, for every name
/// that is a path segment.
pub proof fn lemma_post_routes(method: Seq<u8>, slug: Seq<u8>)
    requires
        is_segment(slug),
    ensures
        route_of(seq![71u8, 69, 84], path_segments(seq![47u8, 98, 108, 111, 103, 47] + slug)) == RouteView::Blog(slug),
        method != seq![71u8, 69, 84] ==> route_of(method, path_segments(seq![47u8, 98, 108, 111, 103, 47] + slug))
            == RouteView::Post(slug),
        route_of(method, path_segments(seq![47u8, 101, 100, 105, 116, 47] + slug)) == RouteView::Edit(slug),
{
    let blog = seq![98u8, 108, 111, 103];
    let edit = seq![101u8, 100, 105, 116];
    lemma_two_segments(blog, slug);
    lemma_two_segments(edit, slug);
    assert(seq![0x2fu8] + blog + seq![0x2fu8] + slug =~= seq![47u8, 98, 108, 111, 103, 47] + slug);
    assert(seq![0x2fu8] + edit + seq![0x2fu8] + slug =~= seq![47u8, 101, 100, 105, 116, 47] + slug);
    assert(blog != seq![102u8, 101, 101, 100]) by { assert(blog[0] != 102u8); }
    assert(blog != seq![109u8, 97, 116, 104]) by { assert(blog[0] != 109u8); }
    assert(edit != seq![102u8, 101, 101, 100]) by { assert(edit[1] != 101u8); }
    assert(edit != seq![109u8, 97, 116, 104]) by { assert(edit[0] != 109u8); }
    assert(edit != seq![98u8, 108, 111, 103]) by { assert(edit[0] != 98u8); }
}

} // verus!
