//! Rendering of a parsed tab group into its HTML replacement text.
//!
//! The output is fixed markup: a container holding one navigation button per
//! tab and one content section per tab; the first tab is active, the others
//! hidden. The exact bytes produced are given by `render_tabs_spec`.

use vstd::prelude::*;
use vstd::string::StringSliceAdditionalSpecFns;

use crate::bytes::push_bytes;
use crate::config::{TabConfig, TabConfigModel, TabsConfig, TabsConfigModel, tab_views};

verus! {

/// The optional `data-tabglobal` attribute.
pub open spec fn global_attr_spec(g: Option<Seq<u8>>) -> Seq<u8> {
    match g {
        Some(v) => " data-tabglobal=\"".spec_bytes() + v + "\"".spec_bytes(),
        None => Seq::empty(),
    }
}

/// One tab's navigation button; the first is active.
pub open spec fn button_spec(t: (TabConfigModel, Seq<u8>), first: bool) -> Seq<u8> {
    "<button class=\"mdbook-tab".spec_bytes() + (if first {
        " active".spec_bytes()
    } else {
        Seq::empty()
    }) + "\" data-tabname=\"".spec_bytes() + t.0.name + "\">".spec_bytes() + t.0.name
        + "</button>".spec_bytes()
}

/// The buttons of `ts[i..]`, separated by line breaks.
pub open spec fn buttons_from(ts: Seq<(TabConfigModel, Seq<u8>)>, i: int) -> Seq<u8>
    decreases ts.len() - i,
{
    if i < 0 || i >= ts.len() {
        Seq::empty()
    } else if i == ts.len() - 1 {
        button_spec(ts[i], i == 0)
    } else {
        button_spec(ts[i], i == 0) + "\n".spec_bytes() + buttons_from(ts, i + 1)
    }
}

/// One tab's content section; all but the first are hidden.
pub open spec fn content_spec(t: (TabConfigModel, Seq<u8>), first: bool) -> Seq<u8> {
    "<div class=\"mdbook-tab-content".spec_bytes() + (if first {
        Seq::empty()
    } else {
        " hidden".spec_bytes()
    }) + "\" data-tabname=\"".spec_bytes() + t.0.name + "\">\n\n".spec_bytes() + t.1
        + "\n\n</div>".spec_bytes()
}

/// The content sections of `ts[i..]`, separated by line breaks.
pub open spec fn contents_from(ts: Seq<(TabConfigModel, Seq<u8>)>, i: int) -> Seq<u8>
    decreases ts.len() - i,
{
    if i < 0 || i >= ts.len() {
        Seq::empty()
    } else if i == ts.len() - 1 {
        content_spec(ts[i], i == 0)
    } else {
        content_spec(ts[i], i == 0) + "\n".spec_bytes() + contents_from(ts, i + 1)
    }
}

/// The whole replacement markup for one tab group.
pub open spec fn render_tabs_spec(c: TabsConfigModel) -> Seq<u8> {
    "<div class=\"mdbook-tabs-container\"".spec_bytes() + global_attr_spec(c.global)
        + ">\n<nav class=\"mdbook-tabs\">\n".spec_bytes() + buttons_from(c.tabs, 0)
        + "\n</nav>\n".spec_bytes() + contents_from(c.tabs, 0) + "\n</div>".spec_bytes()
}

/// The navigation buttons of all tabs, joined with line breaks.
#[verifier::loop_isolation(false)]
fn tab_buttons(tabs: &Vec<(TabConfig, Vec<u8>)>) -> (r: Vec<u8>)
    ensures
        r@ == buttons_from(tab_views(tabs@), 0),
{
    let ghost ts = tab_views(tabs@);
    let mut out: Vec<u8> = Vec::new();
    proof {
        assert(buttons_from(ts, 0) =~= out@ + buttons_from(ts, 0));
    }
    let mut i: usize = 0;
    while i < tabs.len()
        invariant
            0 <= i <= ts.len(),
            ts.len() == tabs@.len(),
            buttons_from(ts, 0) == out@ + buttons_from(ts, i as int),
        decreases ts.len() - i,
    {
        let ghost prev = out@;
        push_bytes(&mut out, "<button class=\"mdbook-tab".as_bytes());
        if i == 0 {
            push_bytes(&mut out, " active".as_bytes());
        }
        push_bytes(&mut out, "\" data-tabname=\"".as_bytes());
        push_bytes(&mut out, tabs[i].0.name.as_slice());
        push_bytes(&mut out, "\">".as_bytes());
        push_bytes(&mut out, tabs[i].0.name.as_slice());
        push_bytes(&mut out, "</button>".as_bytes());
        if i + 1 < tabs.len() {
            push_bytes(&mut out, "\n".as_bytes());
        }
        proof {
            assert(ts[i as int] == (tabs@[i as int].0@, tabs@[i as int].1@));
            if i + 1 < ts.len() {
                assert(prev + buttons_from(ts, i as int) =~= out@ + buttons_from(ts, i + 1));
            } else {
                assert(buttons_from(ts, i + 1) =~= Seq::<u8>::empty());
                assert(prev + buttons_from(ts, i as int) =~= out@ + buttons_from(ts, i + 1));
            }
        }
        i = i + 1;
    }
    proof {
        assert(buttons_from(ts, i as int) =~= Seq::<u8>::empty());
        assert(out@ =~= buttons_from(ts, 0));
    }
    out
}

/// The content sections of all tabs, joined with line breaks.
#[verifier::loop_isolation(false)]
fn tab_contents(tabs: &Vec<(TabConfig, Vec<u8>)>) -> (r: Vec<u8>)
    ensures
        r@ == contents_from(tab_views(tabs@), 0),
{
    let ghost ts = tab_views(tabs@);
    let mut out: Vec<u8> = Vec::new();
    proof {
        assert(contents_from(ts, 0) =~= out@ + contents_from(ts, 0));
    }
    let mut i: usize = 0;
    while i < tabs.len()
        invariant
            0 <= i <= ts.len(),
            ts.len() == tabs@.len(),
            contents_from(ts, 0) == out@ + contents_from(ts, i as int),
        decreases ts.len() - i,
    {
        let ghost prev = out@;
        push_bytes(&mut out, "<div class=\"mdbook-tab-content".as_bytes());
        if i != 0 {
            push_bytes(&mut out, " hidden".as_bytes());
        }
        push_bytes(&mut out, "\" data-tabname=\"".as_bytes());
        push_bytes(&mut out, tabs[i].0.name.as_slice());
        push_bytes(&mut out, "\">\n\n".as_bytes());
        push_bytes(&mut out, tabs[i].1.as_slice());
        push_bytes(&mut out, "\n\n</div>".as_bytes());
        if i + 1 < tabs.len() {
            push_bytes(&mut out, "\n".as_bytes());
        }
        proof {
            assert(ts[i as int] == (tabs@[i as int].0@, tabs@[i as int].1@));
            if i + 1 < ts.len() {
                assert(prev + contents_from(ts, i as int) =~= out@ + contents_from(ts, i + 1));
            } else {
                assert(contents_from(ts, i + 1) =~= Seq::<u8>::empty());
                assert(prev + contents_from(ts, i as int) =~= out@ + contents_from(ts, i + 1));
            }
        }
        i = i + 1;
    }
    proof {
        assert(contents_from(ts, i as int) =~= Seq::<u8>::empty());
        assert(out@ =~= contents_from(ts, 0));
    }
    out
}

/// Renders a tab group into its replacement markup — exactly
/// `render_tabs_spec` of the configuration.
pub fn tabs(config: &TabsConfig) -> (r: Vec<u8>)
    ensures
        r@ == render_tabs_spec(config@),
{
    let btns = tab_buttons(&config.tabs);
    let conts = tab_contents(&config.tabs);
    let mut out: Vec<u8> = Vec::new();
    push_bytes(&mut out, "<div class=\"mdbook-tabs-container\"".as_bytes());
    match &config.global {
        Some(g) => {
            push_bytes(&mut out, " data-tabglobal=\"".as_bytes());
            push_bytes(&mut out, g.as_slice());
            push_bytes(&mut out, "\"".as_bytes());
        },
        None => {},
    }
    push_bytes(&mut out, ">\n<nav class=\"mdbook-tabs\">\n".as_bytes());
    push_bytes(&mut out, btns.as_slice());
    push_bytes(&mut out, "\n</nav>\n".as_bytes());
    push_bytes(&mut out, conts.as_slice());
    push_bytes(&mut out, "\n</div>".as_bytes());
    proof {
        assert(out@ =~= render_tabs_spec(config@));
    }
    out
}

} // verus!
