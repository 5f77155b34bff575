//! Typed directive configurations.
//!
//! A tab group's marker payload is a flat key=value record with one optional
//! key, `global`; a single tab's payload has one required key, `name`. The
//! embedded-build directive's configuration `Config` names a package, its
//! feature set and how its iframe is addressed; its TOML and JSON encodings
//! are handled by the host around this library, which only ever sees the
//! plain values.

use vstd::prelude::*;
use vstd::string::StringSliceAdditionalSpecFns;

use crate::bytes::{bytes_eq, push_bytes, views};
use crate::errors::PluginError;
use crate::keyvalue::{pair_views, parse_record, parse_record_spec};

verus! {

/// The view of an optional byte string.
pub open spec fn opt_bytes_view(o: Option<Vec<u8>>) -> Option<Seq<u8>> {
    match o {
        Some(v) => Some(v@),
        None => None,
    }
}

/// Configuration of a single tab: its displayed name.
#[derive(Clone, Debug, PartialEq, Eq)]
pub struct TabConfig {
    pub name: Vec<u8>,
}

/// The mathematical value of a `TabConfig`.
#[verifier::ext_equal]
pub struct TabConfigModel {
    pub name: Seq<u8>,
}

impl View for TabConfig {
    type V = TabConfigModel;

    open spec fn view(&self) -> TabConfigModel {
        TabConfigModel { name: self.name@ }
    }
}

/// Configuration of a tab group: an optional global identifier, plus the
/// parsed tabs with their raw content, filled in by the structurer.
#[derive(Clone, Debug, PartialEq, Eq)]
pub struct TabsConfig {
    pub global: Option<Vec<u8>>,
    pub tabs: Vec<(TabConfig, Vec<u8>)>,
}

/// The mathematical value of a `TabsConfig`.
#[verifier::ext_equal]
pub struct TabsConfigModel {
    pub global: Option<Seq<u8>>,
    pub tabs: Seq<(TabConfigModel, Seq<u8>)>,
}

/// The views of a tab list.
pub open spec fn tab_views(ts: Seq<(TabConfig, Vec<u8>)>) -> Seq<(TabConfigModel, Seq<u8>)> {
    ts.map_values(|p: (TabConfig, Vec<u8>)| (p.0@, p.1@))
}

impl View for TabsConfig {
    type V = TabsConfigModel;

    open spec fn view(&self) -> TabsConfigModel {
        TabsConfigModel { global: opt_bytes_view(self.global), tabs: tab_views(self.tabs@) }
    }
}

/// Folds the record pairs of a tab-group payload: only the key `global` is
/// known, and it may appear at most once.
pub open spec fn tabs_global_fold(
    ps: Seq<(Seq<u8>, Seq<u8>)>,
    i: int,
    acc: Option<Seq<u8>>,
) -> Option<Option<Seq<u8>>>
    decreases ps.len() - i,
{
    if i < 0 || i >= ps.len() {
        Some(acc)
    } else if ps[i].0 == "global".spec_bytes() && acc is None {
        tabs_global_fold(ps, i + 1, Some(ps[i].1))
    } else {
        None
    }
}

/// The tab-group configuration denoted by a marker payload, if any.
pub open spec fn parse_tabs_config_spec(s: Seq<u8>) -> Option<TabsConfigModel> {
    match parse_record_spec(s) {
        Some(ps) => match tabs_global_fold(ps, 0, None) {
            Some(g) => Some(TabsConfigModel { global: g, tabs: Seq::empty() }),
            None => None,
        },
        None => None,
    }
}

/// Folds the record pairs of a single tab's payload: only the key `name` is
/// known, it may appear at most once, and it is required.
pub open spec fn tab_name_fold(
    ps: Seq<(Seq<u8>, Seq<u8>)>,
    i: int,
    acc: Option<Seq<u8>>,
) -> Option<Option<Seq<u8>>>
    decreases ps.len() - i,
{
    if i < 0 || i >= ps.len() {
        Some(acc)
    } else if ps[i].0 == "name".spec_bytes() && acc is None {
        tab_name_fold(ps, i + 1, Some(ps[i].1))
    } else {
        None
    }
}

/// The single-tab configuration denoted by a marker payload, if any.
pub open spec fn parse_tab_config_spec(s: Seq<u8>) -> Option<TabConfigModel> {
    match parse_record_spec(s) {
        Some(ps) => match tab_name_fold(ps, 0, None) {
            Some(Some(n)) => Some(TabConfigModel { name: n }),
            _ => None,
        },
        None => None,
    }
}

impl TabsConfig {
    /// Parses a tab-group marker payload. Fails with `ConfigParse` exactly
    /// when the payload is not a record of the one optional key `global`.
    #[verifier::loop_isolation(false)]
    pub fn parse(content: &[u8]) -> (r: Result<TabsConfig, PluginError>)
        ensures
            match r {
                Ok(c) => parse_tabs_config_spec(content@) == Some(c@),
                Err(e) => parse_tabs_config_spec(content@) is None && e
                    == PluginError::ConfigParse,
            },
    {
        let pairs = match parse_record(content) {
            Ok(ps) => ps,
            Err(e) => {
                return Err(e);
            },
        };
        let ghost full = pairs@;
        let ghost pv = pair_views(pairs@);
        let mut pairs = pairs;
        let mut global: Option<Vec<u8>> = None;
        while pairs.len() > 0
            invariant
                pairs@ == full.skip(full.len() - pairs@.len()),
                0 <= full.len() - pairs@.len() <= full.len(),
                pv.len() == full.len(),
                tabs_global_fold(pv, 0, None) == tabs_global_fold(
                    pv,
                    full.len() - pairs@.len(),
                    opt_bytes_view(global),
                ),
            decreases pairs@.len(),
        {
            let ghost j = full.len() - pairs@.len();
            let (key, value) = pairs.remove(0);
            proof {
                assert(pairs@ =~= full.skip(j + 1));
                assert((key, value) == full[j]);
                assert((key@, value@) == pv[j]);
            }
            let is_global = bytes_eq(key.as_slice(), "global".as_bytes());
            let free = match &global {
                Some(_) => false,
                None => true,
            };
            if is_global && free {
                global = Some(value);
            } else {
                proof {
                    assert(tabs_global_fold(pv, j, opt_bytes_view(global)) == Option::<
                        Option<Seq<u8>>,
                    >::None);
                }
                return Err(PluginError::ConfigParse);
            }
        }
        let r = TabsConfig { global, tabs: Vec::new() };
        proof {
            assert(tab_views(r.tabs@) =~= Seq::<(TabConfigModel, Seq<u8>)>::empty());
            assert(parse_tabs_config_spec(content@) == Some(r@));
        }
        Ok(r)
    }
}

impl TabConfig {
    /// Parses a single tab's marker payload. Fails with `ConfigParse` exactly
    /// when the payload is not a record giving the one required key `name`.
    #[verifier::loop_isolation(false)]
    pub fn parse(content: &[u8]) -> (r: Result<TabConfig, PluginError>)
        ensures
            match r {
                Ok(c) => parse_tab_config_spec(content@) == Some(c@),
                Err(e) => parse_tab_config_spec(content@) is None && e
                    == PluginError::ConfigParse,
            },
    {
        let pairs = match parse_record(content) {
            Ok(ps) => ps,
            Err(e) => {
                return Err(e);
            },
        };
        let ghost full = pairs@;
        let ghost pv = pair_views(pairs@);
        let mut pairs = pairs;
        let mut name: Option<Vec<u8>> = None;
        while pairs.len() > 0
            invariant
                pairs@ == full.skip(full.len() - pairs@.len()),
                0 <= full.len() - pairs@.len() <= full.len(),
                pv.len() == full.len(),
                tab_name_fold(pv, 0, None) == tab_name_fold(
                    pv,
                    full.len() - pairs@.len(),
                    opt_bytes_view(name),
                ),
            decreases pairs@.len(),
        {
            let ghost j = full.len() - pairs@.len();
            let (key, value) = pairs.remove(0);
            proof {
                assert(pairs@ =~= full.skip(j + 1));
                assert((key, value) == full[j]);
                assert((key@, value@) == pv[j]);
            }
            let is_name = bytes_eq(key.as_slice(), "name".as_bytes());
            let free = match &name {
                Some(_) => false,
                None => true,
            };
            if is_name && free {
                name = Some(value);
            } else {
                proof {
                    assert(tab_name_fold(pv, j, opt_bytes_view(name)) == Option::<
                        Option<Seq<u8>>,
                    >::None);
                }
                return Err(PluginError::ConfigParse);
            }
        }
        match name {
            Some(n) => {
                let r = TabConfig { name: n };
                assert(parse_tab_config_spec(content@) == Some(r@));
                Ok(r)
            },
            None => {
                assert(parse_tab_config_spec(content@) is None);
                Err(PluginError::ConfigParse)
            },
        }
    }
}

/// Configuration of one embedded-build directive.
#[derive(Clone, Debug, PartialEq, Eq)]
pub struct Config {
    /// The package to build.
    pub package: Vec<u8>,
    /// The features to build it with.
    pub features: Vec<Vec<u8>>,
    /// An optional query string for the iframe address.
    pub url_query: Option<Vec<u8>>,
    /// An optional fragment for the iframe address.
    pub url_fragment: Option<Vec<u8>>,
    /// Extra attributes placed on the iframe element, as key/value pairs.
    pub attributes: Option<Vec<(Vec<u8>, Vec<u8>)>>,
}

/// The mathematical value of a `Config`.
#[verifier::ext_equal]
pub struct ConfigModel {
    pub package: Seq<u8>,
    pub features: Seq<Seq<u8>>,
    pub url_query: Option<Seq<u8>>,
    pub url_fragment: Option<Seq<u8>>,
    pub attributes: Option<Seq<(Seq<u8>, Seq<u8>)>>,
}

/// The views of an optional attribute list.
pub open spec fn opt_pairs_view(o: Option<Vec<(Vec<u8>, Vec<u8>)>>) -> Option<
    Seq<(Seq<u8>, Seq<u8>)>,
> {
    match o {
        Some(v) => Some(v@.map_values(|p: (Vec<u8>, Vec<u8>)| (p.0@, p.1@))),
        None => None,
    }
}

impl View for Config {
    type V = ConfigModel;

    open spec fn view(&self) -> ConfigModel {
        ConfigModel {
            package: self.package@,
            features: views(self.features@),
            url_query: opt_bytes_view(self.url_query),
            url_fragment: opt_bytes_view(self.url_fragment),
            attributes: opt_pairs_view(self.attributes),
        }
    }
}

/// `fs[i..]` joined with `--` between fields.
pub open spec fn join_dd(fs: Seq<Seq<u8>>, i: int) -> Seq<u8>
    decreases fs.len() - i,
{
    if i < 0 || i >= fs.len() {
        Seq::empty()
    } else if i == fs.len() - 1 {
        fs[i]
    } else {
        fs[i] + "--".spec_bytes() + join_dd(fs, i + 1)
    }
}

/// The name of the directory a build of `c` lands in.
pub open spec fn dest_name_spec(c: ConfigModel) -> Seq<u8> {
    c.package + "--".spec_bytes() + join_dd(c.features, 0)
}

impl Config {
    /// The destination directory name: the package, `--`, and the features
    /// joined with `--`.
    #[verifier::loop_isolation(false)]
    pub fn dest_name(&self) -> (r: Vec<u8>)
        ensures
            r@ == dest_name_spec(self@),
    {
        let mut out: Vec<u8> = Vec::new();
        push_bytes(&mut out, self.package.as_slice());
        push_bytes(&mut out, "--".as_bytes());
        let ghost fs = views(self.features@);
        proof {
            assert(dest_name_spec(self@) =~= out@ + join_dd(fs, 0));
        }
        let mut i: usize = 0;
        while i < self.features.len()
            invariant
                0 <= i <= fs.len(),
                fs.len() == self.features@.len(),
                dest_name_spec(self@) == out@ + join_dd(fs, i as int),
            decreases fs.len() - i,
        {
            let ghost prev = out@;
            push_bytes(&mut out, self.features[i].as_slice());
            if i + 1 < self.features.len() {
                push_bytes(&mut out, "--".as_bytes());
            }
            proof {
                assert(fs[i as int] == self.features@[i as int]@);
                if i + 1 < fs.len() {
                    assert(prev + join_dd(fs, i as int) =~= out@ + join_dd(fs, i + 1));
                } else {
                    assert(join_dd(fs, i + 1) =~= Seq::<u8>::empty());
                    assert(prev + join_dd(fs, i as int) =~= out@ + join_dd(fs, i + 1));
                }
            }
            i = i + 1;
        }
        proof {
            assert(join_dd(fs, i as int) =~= Seq::<u8>::empty());
            assert(out@ =~= dest_name_spec(self@));
        }
        out
    }
}

/// Whether a normalized fence tag list marks an embedded-build definition:
/// at least two fields, the first `toml`, the second `trunk`.
pub fn is_tags(tags: &Vec<Vec<u8>>) -> (r: bool)
    ensures
        r == (views(tags@).len() >= 2 && views(tags@)[0] == "toml".spec_bytes() && views(
            tags@,
        )[1] == "trunk".spec_bytes()),
{
    if tags.len() < 2 {
        return false;
    }
    let r = bytes_eq(tags[0].as_slice(), "toml".as_bytes()) && bytes_eq(
        tags[1].as_slice(),
        "trunk".as_bytes(),
    );
    proof {
        assert(views(tags@)[0] == tags@[0]@);
        assert(views(tags@)[1] == tags@[1]@);
    }
    r
}

} // verus!
