//! The URL aggregate: scheme, scheme data (hierarchical or opaque), query and
//! fragment, with canonical serialization. Serialization is total on values
//! meeting the data-model invariants and is the exact inverse of parsing for
//! every value the grammar can produce.
#![allow(unused_imports)]
use vstd::prelude::*;
use vstd::string::StrSliceExecFns;
use vstd::string::StringExecFns;

use crate::host::Host;
use crate::host::spec_host_serialize;

verus! {

/// A parsed URL. `scheme` is lower-case ASCII, non-empty, and never contains
/// `:`; `query` and `fragment` are stored in raw percent-encoded form without
/// their leading `?` and `#`.
#[derive(Clone, Debug)]
pub struct Url {
    pub scheme: String,
    pub scheme_data: SchemeData,
    pub query: Option<String>,
    pub fragment: Option<String>,
}

/// Scheme-specific data: hierarchical authority and path for relative
/// schemes, or the verbatim text after the colon for opaque schemes such as
/// `data:` and `mailto:`.
#[derive(Clone, Debug)]
pub enum SchemeData {
    RelativeSchemeData(SchemeRelativeUrl),
    OtherSchemeData(String),
}

/// The authority and path of a relative-scheme URL. `port` holds ASCII digits
/// and is empty when unspecified; each path segment is already
/// percent-encoded; the path may be empty only for the `file` scheme.
#[derive(Clone, Debug)]
pub struct SchemeRelativeUrl {
    pub userinfo: Option<UserInfo>,
    pub host: Host,
    pub port: String,
    pub path: Vec<String>,
}

/// The `username[:password]` pair before the host.
#[derive(Clone, Debug)]
pub struct UserInfo {
    pub username: String,
    pub password: Option<String>,
}

/// What the userinfo contributes to the authority: nothing when the username
/// is empty and there is no password; otherwise `username[:password]@`.
pub open spec fn spec_userinfo_part(userinfo: Option<UserInfo>) -> Seq<char> {
    match userinfo {
        None => Seq::empty(),
        Some(u) => if u.username@.len() > 0 || u.password is Some {
            u.username@ + (match u.password {
                None => Seq::<char>::empty(),
                Some(p) => seq![':'] + p@,
            }) + seq!['@']
        } else {
            Seq::empty()
        },
    }
}

/// Each path segment prefixed with `/`.
pub open spec fn spec_path_segments(path: Seq<Seq<char>>) -> Seq<char>
    decreases path.len(),
{
    if path.len() == 0 {
        Seq::empty()
    } else {
        seq!['/'] + path[0] + spec_path_segments(path.skip(1))
    }
}

/// The serialized path: each segment prefixed with `/`, or a single `/` when
/// the path is empty — the canonical form always has a path start.
pub open spec fn spec_path_part(path: Seq<Seq<char>>) -> Seq<char> {
    if path.len() == 0 {
        seq!['/']
    } else {
        spec_path_segments(path)
    }
}

/// `:port`, or nothing when the port is unspecified.
pub open spec fn spec_port_part(port: Seq<char>) -> Seq<char> {
    if port.len() > 0 {
        seq![':'] + port
    } else {
        Seq::empty()
    }
}

/// The authority and path: `//`, the userinfo part, the host, the port part,
/// the path part.
pub open spec fn spec_relative_part(u: SchemeRelativeUrl) -> Seq<char> {
    seq!['/', '/'] + spec_userinfo_part(u.userinfo) + spec_host_serialize(u.host@)
        + spec_port_part(u.port@) + spec_path_part(u.path.deep_view())
}

/// The canonical text of a URL without its fragment.
pub open spec fn spec_serialize_no_fragment(url: Url) -> Seq<char> {
    url.scheme@ + seq![':'] + (match url.scheme_data {
        SchemeData::RelativeSchemeData(rel) => spec_relative_part(rel),
        SchemeData::OtherSchemeData(data) => data@,
    }) + (match url.query {
        None => Seq::<char>::empty(),
        Some(q) => seq!['?'] + q@,
    })
}

/// The canonical text of a URL.
pub open spec fn spec_serialize(url: Url) -> Seq<char> {
    spec_serialize_no_fragment(url) + (match url.fragment {
        None => Seq::<char>::empty(),
        Some(f) => seq!['#'] + f@,
    })
}

proof fn lemma_segments_snoc(path: Seq<Seq<char>>, k: int)
    requires
        0 <= k < path.len(),
    ensures
        spec_path_segments(path.take(k + 1)) == spec_path_segments(path.take(k)) + seq!['/']
            + path[k],
    decreases k,
{
    if k == 0 {
        assert(path.take(1) =~= seq![path[0]]);
        assert(path.take(1).skip(1) =~= Seq::<Seq<char>>::empty());
        assert(path.take(0) =~= Seq::<Seq<char>>::empty());
        assert(spec_path_segments(Seq::<Seq<char>>::empty()) == Seq::<char>::empty());
        assert(path.take(1)[0] == path[0]);
        assert(spec_path_segments(path.take(1)) == seq!['/'] + path[0] + Seq::<char>::empty());
        assert(spec_path_segments(path.take(0)) + seq!['/'] + path[0] =~= seq!['/'] + path[0]
            + Seq::<char>::empty());
    } else {
        lemma_segments_snoc(path.skip(1), k - 1);
        let t1 = path.take(k + 1);
        let t0 = path.take(k);
        assert(t1.skip(1) =~= path.skip(1).take(k));
        assert(t0.skip(1) =~= path.skip(1).take(k - 1));
        let inner = spec_path_segments(path.skip(1).take(k - 1));
        assert(path.skip(1)[k - 1] == path[k]);
        assert(spec_path_segments(t1) == seq!['/'] + path[0] + (inner + seq!['/'] + path[k]));
        assert(spec_path_segments(t0) == seq!['/'] + path[0] + inner);
        assert(seq!['/'] + path[0] + (inner + seq!['/'] + path[k]) =~= (seq!['/'] + path[0]
            + inner) + seq!['/'] + path[k]);
    }
}

/// Append the path: each segment prefixed with `/`, or a single `/` when the
/// path is empty.
fn append_path(out: &mut String, path: &Vec<String>)
    ensures
        final(out)@ == old(out)@ + spec_path_part(path.deep_view()),
{
    proof {
        reveal_strlit("/");
        assert("/"@ =~= seq!['/']);
    }
    if path.len() == 0 {
        out.append("/");
        return ;
    }
    let ghost dv = path.deep_view();
    proof {
        assert(dv.take(0) =~= Seq::<Seq<char>>::empty());
        assert(out@ + spec_path_segments(dv.take(0)) =~= out@);
    }
    let mut k: usize = 0;
    while k < path.len()
        invariant
            k <= path@.len(),
            dv == path.deep_view(),
            dv.len() == path@.len(),
            out@ == old(out)@ + spec_path_segments(dv.take(k as int)),
        decreases path@.len() - k,
    {
        proof {
            reveal_strlit("/");
            assert("/"@ =~= seq!['/']);
        }
        out.append("/");
        out.append(path[k].as_str());
        proof {
            lemma_segments_snoc(dv, k as int);
            assert(dv[k as int] == path@[k as int]@);
            assert(out@ =~= old(out)@ + spec_path_segments(dv.take(k as int + 1)));
        }
        k += 1;
    }
    proof {
        assert(dv.take(path@.len() as int) =~= dv);
    }
}

impl Url {
    /// The canonical text of this URL without its fragment: scheme and colon;
    /// then for a relative scheme `//`, the userinfo only when the username is
    /// non-empty or a password is present, the host, `:port` only when the
    /// port is non-empty, and the path (a single `/` when empty); for an
    /// opaque scheme the stored text verbatim; then `?query` when present.
    pub fn serialize_no_fragment(&self) -> (r: String)
        ensures
            r@ == spec_serialize_no_fragment(*self),
    {
        proof {
            reveal_strlit(":");
            reveal_strlit("//");
            reveal_strlit("@");
            reveal_strlit("?");
            assert(":"@ =~= seq![':']);
            assert("//"@ =~= seq!['/', '/']);
            assert("@"@ =~= seq!['@']);
            assert("?"@ =~= seq!['?']);
        }
        let mut out = String::new();
        out.append(self.scheme.as_str());
        out.append(":");
        match &self.scheme_data {
            SchemeData::RelativeSchemeData(rel) => {
                out.append("//");
                match &rel.userinfo {
                    None => {
                    },
                    Some(ui) => {
                        if !ui.username.as_str().is_empty() || ui.password.is_some() {
                            out.append(ui.username.as_str());
                            match &ui.password {
                                None => {
                                },
                                Some(password) => {
                                    out.append(":");
                                    out.append(password.as_str());
                                },
                            }
                            out.append("@");
                        }
                    },
                }
                proof {
                    assert(out@ =~= self.scheme@ + seq![':'] + seq!['/', '/'] + spec_userinfo_part(
                        rel.userinfo,
                    ));
                }
                let host_text = rel.host.serialize();
                out.append(host_text.as_str());
                if !rel.port.as_str().is_empty() {
                    out.append(":");
                    out.append(rel.port.as_str());
                }
                proof {
                    assert(out@ =~= self.scheme@ + seq![':'] + seq!['/', '/'] + spec_userinfo_part(
                        rel.userinfo,
                    ) + spec_host_serialize(rel.host@) + spec_port_part(rel.port@));
                }
                append_path(&mut out, &rel.path);
                proof {
                    assert(out@ =~= self.scheme@ + seq![':'] + spec_relative_part(*rel));
                }
            },
            SchemeData::OtherSchemeData(data) => {
                out.append(data.as_str());
            },
        }
        match &self.query {
            None => {
            },
            Some(query) => {
                out.append("?");
                out.append(query.as_str());
            },
        }
        proof {
            assert(out@ =~= spec_serialize_no_fragment(*self));
        }
        out
    }

    /// The canonical text of this URL: the fragment-free form, then
    /// `#fragment` when a fragment is present.
    pub fn serialize(&self) -> (r: String)
        ensures
            r@ == spec_serialize(*self),
    {
        proof {
            reveal_strlit("#");
            assert("#"@ =~= seq!['#']);
        }
        let mut out = self.serialize_no_fragment();
        match &self.fragment {
            None => {
            },
            Some(fragment) => {
                out.append("#");
                out.append(fragment.as_str());
            },
        }
        proof {
            assert(out@ =~= spec_serialize(*self));
        }
        out
    }
}

/// Userinfo omission: an absent userinfo, and an empty username with no
/// password, contribute nothing to the authority — no bare `@` is emitted.
/// A non-empty username with no password contributes exactly `username@`,
/// and a password always appears as `:password` before the `@`.
pub proof fn lemma_userinfo_omission(userinfo: Option<UserInfo>)
    ensures
        match userinfo {
            None => spec_userinfo_part(userinfo) == Seq::<char>::empty(),
            Some(u) => {
                &&& (u.username@.len() == 0 && u.password is None) ==> spec_userinfo_part(userinfo)
                    == Seq::<char>::empty()
                &&& (u.username@.len() > 0 && u.password is None) ==> spec_userinfo_part(userinfo)
                    == u.username@ + seq!['@']
                &&& u.password matches Some(p) ==> spec_userinfo_part(userinfo) == u.username@
                    + seq![':'] + p@ + seq!['@']
            },
        },
{
    match userinfo {
        None => {
        },
        Some(u) => {
            if u.username@.len() > 0 && u.password is None {
                assert(u.username@ + Seq::<char>::empty() + seq!['@'] =~= u.username@
                    + seq!['@']);
            }
            if u.password is Some {
                let p = u.password.unwrap();
                assert(u.username@ + (seq![':'] + p@) + seq!['@'] =~= u.username@ + seq![':'] + p@
                    + seq!['@']);
            }
        },
    }
}

/// An empty path serializes as a single trailing `/`: the canonical form
/// always has a path start.
pub proof fn lemma_empty_path_single_slash(path: Seq<Seq<char>>)
    requires
        path.len() == 0,
    ensures
        spec_path_part(path) == seq!['/'],
{
}

} // verus!
