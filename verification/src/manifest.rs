//! The per-snapshot profile manifest: two ordered, deduplicated and disjoint
//! string sets, one for system-owned packages and one for user-requested
//! packages, kept in sorted order so that every persisted write is
//! deterministic and human-diffable.

use vstd::prelude::*;

use crate::codec;
use crate::errs::AshError;
use crate::order;

verus! {

/// Mathematical image of a manifest: the two package lists.
#[verifier::ext_equal]
pub struct ManifestView {
    pub system: Seq<Seq<char>>,
    pub profile: Seq<Seq<char>>,
}

/// Which of the two manifest sets an operation addresses.
#[derive(Clone, Copy, Debug, PartialEq, Eq, Structural)]
pub enum SetName {
    SystemPackages,
    ProfilePackages,
}

/// Package names must be nonempty, fit on one line of the persisted file,
/// and not look like a section header.
pub open spec fn valid_pkg(s: Seq<char>) -> bool {
    s.len() > 0 && codec::no_char(s, '\n') && s[0] != '['
}

/// Strictly ascending in the lexicographic order, hence deduplicated.
pub open spec fn sorted_strict(v: Seq<Seq<char>>) -> bool {
    forall|i: int, j: int| 0 <= i < j < v.len() ==> order::lex_lt(v[i], v[j])
}

pub open spec fn all_valid(v: Seq<Seq<char>>) -> bool {
    forall|i: int| 0 <= i < v.len() ==> valid_pkg(#[trigger] v[i])
}

/// No package name stands in both sets at once.
pub open spec fn disjoint_sets(a: Seq<Seq<char>>, b: Seq<Seq<char>>) -> bool {
    forall|i: int| 0 <= i < a.len() ==> !b.contains(#[trigger] a[i])
}

/// The manifest invariant: both sets sorted, valid and mutually disjoint.
pub open spec fn wf_view(m: ManifestView) -> bool {
    &&& sorted_strict(m.system)
    &&& sorted_strict(m.profile)
    &&& all_valid(m.system)
    &&& all_valid(m.profile)
    &&& disjoint_sets(m.system, m.profile)
    &&& disjoint_sets(m.profile, m.system)
}

/// The set a name addresses.
pub open spec fn set_of(m: ManifestView, s: SetName) -> Seq<Seq<char>> {
    match s {
        SetName::SystemPackages => m.system,
        SetName::ProfilePackages => m.profile,
    }
}

/// The set a name does not address.
pub open spec fn other_of(s: SetName) -> SetName {
    match s {
        SetName::SystemPackages => SetName::ProfilePackages,
        SetName::ProfilePackages => SetName::SystemPackages,
    }
}

/// The declarative package record of one snapshot.
pub struct ProfileManifest {
    system: Vec<String>,
    profile: Vec<String>,
}

impl View for ProfileManifest {
    type V = ManifestView;

    closed spec fn view(&self) -> ManifestView {
        ManifestView { system: self.system.deep_view(), profile: self.profile.deep_view() }
    }
}

impl ProfileManifest {
    pub open spec fn wf(&self) -> bool {
        wf_view(self@)
    }

    /// An empty manifest.
    pub fn new() -> (m: Self)
        ensures
            m.wf(),
            m@.system == Seq::<Seq<char>>::empty(),
            m@.profile == Seq::<Seq<char>>::empty(),
    {
        let m = ProfileManifest { system: Vec::new(), profile: Vec::new() };
        proof {
            assert(m@.system =~= Seq::<Seq<char>>::empty());
            assert(m@.profile =~= Seq::<Seq<char>>::empty());
        }
        m
    }

    /// Whether `pkg` stands in the named set, by exact string equality.
    pub fn contains(&self, set: SetName, pkg: &str) -> (r: bool)
        ensures
            r == set_of(self@, set).contains(pkg@),
    {
        match set {
            SetName::SystemPackages => order::vec_contains_str(&self.system, pkg),
            SetName::ProfilePackages => order::vec_contains_str(&self.profile, pkg),
        }
    }

    /// Whether `pkg` is owned by the base image rather than user-requested.
    pub fn is_system_package(&self, pkg: &str) -> (r: bool)
        ensures
            r == self@.system.contains(pkg@),
    {
        self.contains(SetName::SystemPackages, pkg)
    }

    /// Record `pkg` in the named set, keeping it sorted and deduplicated.
    /// A package already owned by the other set is left where it is, so a
    /// name never stands in both sets.
    pub fn add(&mut self, set: SetName, pkg: &str) -> (r: Result<(), AshError>)
        requires
            old(self).wf(),
        ensures
            final(self).wf(),
            match r {
                Ok(()) => valid_pkg(pkg@) && add_effect(old(self)@, final(self)@, set, pkg@),
                Err(e) => e == AshError::InvalidId && !valid_pkg(pkg@) && final(self)@ == old(
                    self,
                )@,
            },
    {
        if !check_pkg_chars(pkg) {
            return Err(AshError::InvalidId);
        }
        let in_other = match set {
            SetName::SystemPackages => order::vec_contains_str(&self.profile, pkg),
            SetName::ProfilePackages => order::vec_contains_str(&self.system, pkg),
        };
        if in_other {
            return Ok(());
        }
        match set {
            SetName::SystemPackages => {
                sorted_insert(&mut self.system, pkg);
                proof {
                    let m0 = old(self)@;
                    let m1 = self@;
                    assert forall|i: int| 0 <= i < m1.profile.len() implies !m1.system.contains(
                        #[trigger] m1.profile[i],
                    ) by {
                        if m1.system.contains(m1.profile[i]) {
                            assert(m0.system.contains(m1.profile[i]) || m1.profile[i] == pkg@);
                            assert(m0.profile[i] == m1.profile[i]);
                        }
                    }
                    assert forall|i: int| 0 <= i < m1.system.len() implies !m1.profile.contains(
                        #[trigger] m1.system[i],
                    ) by {
                        if m1.profile.contains(m1.system[i]) {
                            assert(m1.profile.contains(m1.system[i]) && disjoint_sets(
                                m1.profile,
                                m1.system,
                            ) ==> !m1.system.contains(m1.system[i]));
                            let j = choose|j: int|
                                0 <= j < m1.profile.len() && m1.profile[j] == m1.system[i];
                            assert(!m1.system.contains(m1.profile[j]));
                            assert(m1.system[i] == m1.profile[j]);
                        }
                    }
                }
            },
            SetName::ProfilePackages => {
                sorted_insert(&mut self.profile, pkg);
                proof {
                    let m0 = old(self)@;
                    let m1 = self@;
                    assert forall|i: int| 0 <= i < m1.system.len() implies !m1.profile.contains(
                        #[trigger] m1.system[i],
                    ) by {
                        if m1.profile.contains(m1.system[i]) {
                            assert(m0.profile.contains(m1.system[i]) || m1.system[i] == pkg@);
                            assert(m0.system[i] == m1.system[i]);
                            if m1.system[i] == pkg@ {
                                assert(m0.system.contains(pkg@)) by {
                                    assert(m0.system[i] == pkg@);
                                }
                            }
                        }
                    }
                    assert forall|i: int| 0 <= i < m1.profile.len() implies !m1.system.contains(
                        #[trigger] m1.profile[i],
                    ) by {
                        if m1.system.contains(m1.profile[i]) {
                            let j = choose|j: int|
                                0 <= j < m1.system.len() && m1.system[j] == m1.profile[i];
                            assert(!m1.profile.contains(m1.system[j]));
                        }
                    }
                }
            },
        }
        Ok(())
    }

    /// Drop `pkg` from the named set if it stands there; the result says
    /// whether it did.
    pub fn remove(&mut self, set: SetName, pkg: &str) -> (r: bool)
        requires
            old(self).wf(),
        ensures
            final(self).wf(),
            r == set_of(old(self)@, set).contains(pkg@),
            remove_effect(old(self)@, final(self)@, set, pkg@),
    {
        let removed = match set {
            SetName::SystemPackages => sorted_remove(&mut self.system, pkg),
            SetName::ProfilePackages => sorted_remove(&mut self.profile, pkg),
        };
        proof {
            let m0 = old(self)@;
            let m1 = self@;
            assert forall|i: int|
                0 <= i < set_of(m1, other_of(set)).len() implies !set_of(m1, set).contains(
                #[trigger] set_of(m1, other_of(set))[i],
            ) by {
                if set_of(m1, set).contains(set_of(m1, other_of(set))[i]) {
                    assert(set_of(m0, set).contains(set_of(m0, other_of(set))[i]));
                }
            }
            assert forall|i: int|
                0 <= i < set_of(m1, set).len() implies !set_of(m1, other_of(set)).contains(
                #[trigger] set_of(m1, set)[i],
            ) by {
                if set_of(m1, other_of(set)).contains(set_of(m1, set)[i]) {
                    let j = choose|j: int|
                        0 <= j < set_of(m1, other_of(set)).len() && set_of(m1, other_of(set))[j]
                            == set_of(m1, set)[i];
                    assert(!set_of(m1, set).contains(set_of(m1, other_of(set))[j]));
                }
            }
        }
        removed
    }

    /// The system-owned packages, in sorted order.
    pub fn system_packages(&self) -> (r: &Vec<String>)
        ensures
            r.deep_view() == self@.system,
    {
        &self.system
    }

    /// The user-requested packages, in sorted order.
    pub fn profile_packages(&self) -> (r: &Vec<String>)
        ensures
            r.deep_view() == self@.profile,
    {
        &self.profile
    }

    /// An independent copy with the identical contents.
    pub fn duplicate(&self) -> (r: Self)
        ensures
            r@ == self@,
    {
        let r = ProfileManifest {
            system: clone_string_vec(&self.system),
            profile: clone_string_vec(&self.profile),
        };
        proof {
            assert(r@ =~= self@);
        }
        r
    }

    /// Every installed package, system-owned and user-requested merged into
    /// one sorted list.
    pub fn all_packages(&self) -> (r: Vec<String>)
        requires
            self.wf(),
        ensures
            sorted_strict(r.deep_view()),
            forall|x: Seq<char>| r.deep_view().contains(x) <==> member(self@, x),
    {
        let mut out: Vec<String> = Vec::new();
        let mut i: usize = 0;
        let mut j: usize = 0;
        let ghost sys = self@.system;
        let ghost prof = self@.profile;
        proof {
            assert(out.deep_view() =~= Seq::<Seq<char>>::empty());
        }
        while i < self.system.len() || j < self.profile.len()
            invariant
                self.wf(),
                sys == self@.system,
                prof == self@.profile,
                sys.len() == self.system@.len(),
                prof.len() == self.profile@.len(),
                i <= sys.len(),
                j <= prof.len(),
                out.deep_view().len() == i + j,
                sorted_strict(out.deep_view()),
                forall|x: Seq<char>|
                    out.deep_view().contains(x) <==> sys.take(i as int).contains(x) || prof.take(
                        j as int,
                    ).contains(x),
                forall|l: int, k: int|
                    0 <= l < out.deep_view().len() && i <= k < sys.len() ==> order::lex_lt(
                        #[trigger] out.deep_view()[l],
                        #[trigger] sys[k],
                    ),
                forall|l: int, k: int|
                    0 <= l < out.deep_view().len() && j <= k < prof.len() ==> order::lex_lt(
                        #[trigger] out.deep_view()[l],
                        #[trigger] prof[k],
                    ),
            decreases sys.len() + prof.len() - i - j,
        {
            let ghost pre = out.deep_view();
            let take_sys: bool;
            if i >= self.system.len() {
                take_sys = false;
            } else if j >= self.profile.len() {
                take_sys = true;
            } else {
                proof {
                    assert(self.system@[i as int]@ == sys[i as int]);
                    assert(self.profile@[j as int]@ == prof[j as int]);
                }
                take_sys = order::str_lt(self.system[i].as_str(), self.profile[j].as_str());
                proof {
                    if !take_sys {
                        order::lemma_lex_trichotomy(sys[i as int], prof[j as int]);
                        if sys[i as int] == prof[j as int] {
                            assert(prof.contains(sys[i as int]));
                            assert(!prof.contains(sys[i as int]));
                        }
                        assert(order::lex_lt(prof[j as int], sys[i as int]));
                    }
                }
            }
            if take_sys {
                proof {
                    assert(self.system@[i as int]@ == sys[i as int]);
                }
                out.push(self.system[i].clone());
                proof {
                    assert(out.deep_view() =~= pre.push(sys[i as int]));
                    assert(sys.take(i + 1) =~= sys.take(i as int).push(sys[i as int]));
                    assert forall|x: Seq<char>| out.deep_view().contains(x) implies sys.take(
                        i + 1,
                    ).contains(x) || prof.take(j as int).contains(x) by {
                        let l = choose|l: int|
                            0 <= l < out.deep_view().len() && out.deep_view()[l] == x;
                        if l < pre.len() {
                            assert(pre.contains(x));
                        } else {
                            assert(x == sys[i as int]);
                            assert(sys.take(i + 1).last() == x);
                        }
                    }
                    assert forall|x: Seq<char>|
                        sys.take(i + 1).contains(x) || prof.take(j as int).contains(
                            x,
                        ) implies out.deep_view().contains(x) by {
                        if sys.take(i + 1).contains(x) {
                            let l = choose|l: int|
                                0 <= l < sys.take(i + 1).len() && #[trigger] sys.take(i + 1)[l]
                                    == x;
                            if l < i {
                                assert(sys.take(i as int)[l] == x);
                                assert(pre.contains(x));
                                let l2 = choose|l2: int| 0 <= l2 < pre.len() && pre[l2] == x;
                                assert(out.deep_view()[l2] == x);
                            } else {
                                assert(out.deep_view().last() == x);
                            }
                        } else {
                            assert(pre.contains(x));
                            let l2 = choose|l2: int| 0 <= l2 < pre.len() && pre[l2] == x;
                            assert(out.deep_view()[l2] == x);
                        }
                    }
                    assert forall|l: int, k: int|
                        0 <= l < out.deep_view().len() && l < k < out.deep_view().len() implies
                        order::lex_lt(out.deep_view()[l], out.deep_view()[k]) by {
                        if k < pre.len() {
                        } else {
                            assert(out.deep_view()[k] == sys[i as int]);
                            if l < pre.len() {
                                assert(order::lex_lt(pre[l], sys[i as int]));
                            }
                        }
                    }
                    assert forall|l: int, k: int|
                        0 <= l < out.deep_view().len() && i + 1 <= k < sys.len() implies
                        order::lex_lt(#[trigger] out.deep_view()[l], #[trigger] sys[k]) by {
                        if l < pre.len() {
                            assert(order::lex_lt(pre[l], sys[k]));
                        } else {
                            assert(out.deep_view()[l] == sys[i as int]);
                            assert(order::lex_lt(sys[i as int], sys[k]));
                        }
                    }
                    assert forall|l: int, k: int|
                        0 <= l < out.deep_view().len() && j <= k < prof.len() implies
                        order::lex_lt(#[trigger] out.deep_view()[l], #[trigger] prof[k]) by {
                        if l < pre.len() {
                            assert(order::lex_lt(pre[l], prof[k]));
                        } else {
                            assert(out.deep_view()[l] == sys[i as int]);
                            assert(order::lex_lt(sys[i as int], prof[j as int]));
                            if k > j {
                                order::lemma_lex_transitive(
                                    sys[i as int],
                                    prof[j as int],
                                    prof[k],
                                );
                            }
                        }
                    }
                }
                i = i + 1;
            } else {
                proof {
                    assert(self.profile@[j as int]@ == prof[j as int]);
                }
                out.push(self.profile[j].clone());
                proof {
                    assert(out.deep_view() =~= pre.push(prof[j as int]));
                    assert(prof.take(j + 1) =~= prof.take(j as int).push(prof[j as int]));
                    assert forall|x: Seq<char>| out.deep_view().contains(x) implies sys.take(
                        i as int,
                    ).contains(x) || prof.take(j + 1).contains(x) by {
                        let l = choose|l: int|
                            0 <= l < out.deep_view().len() && out.deep_view()[l] == x;
                        if l < pre.len() {
                            assert(pre.contains(x));
                        } else {
                            assert(x == prof[j as int]);
                            assert(prof.take(j + 1).last() == x);
                        }
                    }
                    assert forall|x: Seq<char>|
                        sys.take(i as int).contains(x) || prof.take(j + 1).contains(
                            x,
                        ) implies out.deep_view().contains(x) by {
                        if prof.take(j + 1).contains(x) {
                            let l = choose|l: int|
                                0 <= l < prof.take(j + 1).len() && #[trigger] prof.take(j + 1)[l]
                                    == x;
                            if l < j {
                                assert(prof.take(j as int)[l] == x);
                                assert(pre.contains(x));
                                let l2 = choose|l2: int| 0 <= l2 < pre.len() && pre[l2] == x;
                                assert(out.deep_view()[l2] == x);
                            } else {
                                assert(out.deep_view().last() == x);
                            }
                        } else {
                            assert(pre.contains(x));
                            let l2 = choose|l2: int| 0 <= l2 < pre.len() && pre[l2] == x;
                            assert(out.deep_view()[l2] == x);
                        }
                    }
                    assert forall|l: int, k: int|
                        0 <= l < out.deep_view().len() && l < k < out.deep_view().len() implies
                        order::lex_lt(out.deep_view()[l], out.deep_view()[k]) by {
                        if k < pre.len() {
                        } else {
                            assert(out.deep_view()[k] == prof[j as int]);
                            if l < pre.len() {
                                assert(order::lex_lt(pre[l], prof[j as int]));
                            }
                        }
                    }
                    assert forall|l: int, k: int|
                        0 <= l < out.deep_view().len() && j + 1 <= k < prof.len() implies
                        order::lex_lt(#[trigger] out.deep_view()[l], #[trigger] prof[k]) by {
                        if l < pre.len() {
                            assert(order::lex_lt(pre[l], prof[k]));
                        } else {
                            assert(out.deep_view()[l] == prof[j as int]);
                            assert(order::lex_lt(prof[j as int], prof[k]));
                        }
                    }
                    assert forall|l: int, k: int|
                        0 <= l < out.deep_view().len() && i <= k < sys.len() implies
                        order::lex_lt(#[trigger] out.deep_view()[l], #[trigger] sys[k]) by {
                        if l < pre.len() {
                            assert(order::lex_lt(pre[l], sys[k]));
                        } else {
                            assert(out.deep_view()[l] == prof[j as int]);
                            assert(order::lex_lt(prof[j as int], sys[i as int]));
                            if k > i {
                                order::lemma_lex_transitive(
                                    prof[j as int],
                                    sys[i as int],
                                    sys[k],
                                );
                            }
                        }
                    }
                }
                j = j + 1;
            }
        }
        proof {
            assert(sys.take(sys.len() as int) =~= sys);
            assert(prof.take(prof.len() as int) =~= prof);
        }
        out
    }

    /// The canonical persisted form of the manifest.
    pub fn save(&self) -> (r: String)
        requires
            self.wf(),
        ensures
            r@ == ser_manifest(self@),
    {
        let mut lines: Vec<String> = Vec::new();
        lines.push(("[system-packages]").to_owned());
        let mut i: usize = 0;
        proof {
            assert(lines.deep_view() =~= seq![sys_header()] + self@.system.take(0));
        }
        while i < self.system.len()
            invariant
                i <= self.system.len(),
                self@.system.len() == self.system@.len(),
                lines.deep_view() == seq![sys_header()] + self@.system.take(i as int),
            decreases self.system.len() - i,
        {
            let ghost pre = lines.deep_view();
            lines.push(self.system[i].clone());
            proof {
                assert(self.system@[i as int]@ == self@.system[i as int]);
                assert(lines.deep_view() =~= pre.push(self@.system[i as int]));
                assert(seq![sys_header()] + self@.system.take(i + 1) =~= pre.push(
                    self@.system[i as int],
                ));
            }
            i = i + 1;
        }
        let ghost mid = seq![sys_header()] + self@.system;
        proof {
            assert(self@.system.take(self@.system.len() as int) =~= self@.system);
        }
        let ghost pre2 = lines.deep_view();
        lines.push(("[profile-packages]").to_owned());
        proof {
            assert(lines.deep_view() =~= mid.push(prof_header()));
        }
        let mut j: usize = 0;
        proof {
            assert(lines.deep_view() =~= mid + seq![prof_header()] + self@.profile.take(0));
        }
        while j < self.profile.len()
            invariant
                j <= self.profile.len(),
                self@.profile.len() == self.profile@.len(),
                mid == seq![sys_header()] + self@.system,
                lines.deep_view() == mid + seq![prof_header()] + self@.profile.take(j as int),
            decreases self.profile.len() - j,
        {
            let ghost pre = lines.deep_view();
            lines.push(self.profile[j].clone());
            proof {
                assert(self.profile@[j as int]@ == self@.profile[j as int]);
                assert(lines.deep_view() =~= pre.push(self@.profile[j as int]));
                assert(mid + seq![prof_header()] + self@.profile.take(j + 1) =~= pre.push(
                    self@.profile[j as int],
                ));
            }
            j = j + 1;
        }
        proof {
            assert(self@.profile.take(self@.profile.len() as int) =~= self@.profile);
            assert(lines.deep_view() =~= manifest_lines(self@));
            reveal_strlit("\n");
        }
        codec::join_with(&lines, "\n")
    }

    /// Rebuild a manifest from its persisted form; a file that is not the
    /// canonical rendering of a well-formed manifest is rejected as corrupt.
    pub fn load(s: &str) -> (r: Result<ProfileManifest, AshError>)
        ensures
            match r {
                Ok(m) => m.wf() && deser_manifest(s@) == Some(m@),
                Err(e) => e == AshError::Corrupt && match deser_manifest(s@) {
                    Option::None => true,
                    Option::Some(mv) => !wf_view(mv),
                },
            },
    {
        let lines = codec::split_str(s, '\n');
        let ghost ldv = lines.deep_view();
        proof {
            codec::lemma_split_nonempty(s@, '\n');
        }
        if !order::str_eq(lines[0].as_str(), "[system-packages]") {
            proof {
                assert(lines@[0]@ == ldv[0]);
            }
            return Err(AshError::Corrupt);
        }
        let mut system: Vec<String> = Vec::new();
        let mut i: usize = 1;
        proof {
            assert(lines@[0]@ == ldv[0]);
            assert(system.deep_view() =~= Seq::<Seq<char>>::empty());
            if deser_sections(ldv.skip(1)) is Some {
                let m = deser_sections(ldv.skip(1)).unwrap();
                assert(ManifestView {
                    system: Seq::<Seq<char>>::empty() + m.system,
                    profile: m.profile,
                } =~= m);
            }
        }
        loop
            invariant
                1 <= i <= lines.len(),
                ldv == lines.deep_view(),
                ldv.len() == lines@.len(),
                ldv[0] == sys_header(),
                deser_manifest(s@) == deser_sections(ldv.skip(1)),
                deser_sections(ldv.skip(1)) == prepend_sys(
                    system.deep_view(),
                    deser_sections(ldv.skip(i as int)),
                ),
            decreases lines.len() - i,
        {
            if i == lines.len() {
                proof {
                    assert(ldv.skip(i as int).len() == 0);
                }
                return Err(AshError::Corrupt);
            }
            proof {
                assert(lines@[i as int]@ == ldv[i as int]);
                assert(ldv.skip(i as int)[0] == ldv[i as int]);
                assert(ldv.skip(i as int).skip(1) =~= ldv.skip(i + 1));
            }
            if order::str_eq(lines[i].as_str(), "[profile-packages]") {
                let mut profile: Vec<String> = Vec::new();
                let mut j: usize = i + 1;
                proof {
                    assert(profile.deep_view() =~= ldv.subrange(i + 1, i + 1));
                }
                while j < lines.len()
                    invariant
                        i + 1 <= j <= lines.len(),
                        ldv == lines.deep_view(),
                        ldv.len() == lines@.len(),
                        profile.deep_view() == ldv.subrange(i + 1, j as int),
                    decreases lines.len() - j,
                {
                    let ghost pre = profile.deep_view();
                    profile.push(lines[j].clone());
                    proof {
                        assert(lines@[j as int]@ == ldv[j as int]);
                        assert(profile.deep_view() =~= pre.push(ldv[j as int]));
                        assert(ldv.subrange(i + 1, j + 1) =~= ldv.subrange(i + 1, j as int).push(
                            ldv[j as int],
                        ));
                    }
                    j = j + 1;
                }
                proof {
                    assert(ldv.subrange(i + 1, ldv.len() as int) =~= ldv.skip(i + 1));
                }
                let ghost mv = ManifestView {
                    system: system.deep_view(),
                    profile: profile.deep_view(),
                };
                proof {
                    assert(deser_sections(ldv.skip(i as int)) == Some(
                        ManifestView {
                            system: Seq::<Seq<char>>::empty(),
                            profile: ldv.skip(i + 1),
                        },
                    ));
                    assert(deser_manifest(s@) == Some(
                        ManifestView {
                            system: system.deep_view() + Seq::<Seq<char>>::empty(),
                            profile: ldv.skip(i + 1),
                        },
                    ));
                    assert(ManifestView {
                        system: system.deep_view() + Seq::<Seq<char>>::empty(),
                        profile: ldv.skip(i + 1),
                    } =~= mv);
                }
                if !check_sorted_valid(&system) || !check_sorted_valid(&profile)
                    || !check_disjoint(&system, &profile) || !check_disjoint(&profile, &system) {
                    return Err(AshError::Corrupt);
                }
                let m = ProfileManifest { system, profile };
                proof {
                    assert(m@ =~= mv);
                }
                return Ok(m);
            }
            let ghost acc = system.deep_view();
            system.push(lines[i].clone());
            proof {
                assert(system.deep_view() =~= acc.push(ldv[i as int]));
                match deser_sections(ldv.skip(i + 1)) {
                    Some(m) => {
                        assert(deser_sections(ldv.skip(i as int)) == Some(
                            ManifestView {
                                system: seq![ldv[i as int]] + m.system,
                                profile: m.profile,
                            },
                        ));
                        assert(acc + (seq![ldv[i as int]] + m.system) =~= acc.push(ldv[i as int])
                            + m.system);
                    },
                    None => {
                        assert(deser_sections(ldv.skip(i as int)) is None);
                    },
                }
            }
            i = i + 1;
        }
    }
}

/// A package is installed in the snapshot when either set records it.
pub open spec fn member(m: ManifestView, x: Seq<char>) -> bool {
    m.system.contains(x) || m.profile.contains(x)
}

/// What `add` leaves behind: nothing when the other set owns the package,
/// else the named set gains exactly the package and the other is untouched.
pub open spec fn add_effect(m0: ManifestView, m1: ManifestView, set: SetName, pkg: Seq<char>) -> bool {
    if set_of(m0, other_of(set)).contains(pkg) {
        m1 == m0
    } else {
        set_of(m1, other_of(set)) == set_of(m0, other_of(set)) && forall|x: Seq<char>|
            set_of(m1, set).contains(x) <==> set_of(m0, set).contains(x) || x == pkg
    }
}

/// What `remove` leaves behind: the named set loses exactly the package,
/// the other set is untouched.
pub open spec fn remove_effect(m0: ManifestView, m1: ManifestView, set: SetName, pkg: Seq<char>) -> bool {
    set_of(m1, other_of(set)) == set_of(m0, other_of(set)) && forall|x: Seq<char>|
        set_of(m1, set).contains(x) <==> set_of(m0, set).contains(x) && x != pkg
}

/// What an uninstall leaves behind: the package is dropped from whichever
/// set recorded it.
pub open spec fn uninstall_effect(m0: ManifestView, m1: ManifestView, pkg: Seq<char>) -> bool {
    if m0.profile.contains(pkg) {
        remove_effect(m0, m1, SetName::ProfilePackages, pkg)
    } else if m0.system.contains(pkg) {
        remove_effect(m0, m1, SetName::SystemPackages, pkg)
    } else {
        m1 == m0
    }
}

/// The first line of the persisted manifest.
pub open spec fn sys_header() -> Seq<char> {
    "[system-packages]"@
}

/// The line separating the two persisted sections.
pub open spec fn prof_header() -> Seq<char> {
    "[profile-packages]"@
}

/// The persisted lines: each section header followed by its sorted set.
pub open spec fn manifest_lines(m: ManifestView) -> Seq<Seq<char>> {
    seq![sys_header()] + m.system + seq![prof_header()] + m.profile
}

/// The persisted manifest file: its lines joined by newlines. Every write
/// is a whole-file rewrite of this canonical rendering.
pub open spec fn ser_manifest(m: ManifestView) -> Seq<char> {
    codec::join(manifest_lines(m), '\n')
}

/// Parse the lines after the first header: system packages up to the
/// profile header, the rest profile packages; no profile header rejects
/// the file.
pub open spec fn deser_sections(rest: Seq<Seq<char>>) -> Option<ManifestView>
    decreases rest.len(),
{
    if rest.len() == 0 {
        None
    } else if rest[0] == prof_header() {
        Some(ManifestView { system: Seq::<Seq<char>>::empty(), profile: rest.skip(1) })
    } else {
        match deser_sections(rest.skip(1)) {
            Some(m) => Some(
                ManifestView { system: seq![rest[0]] + m.system, profile: m.profile },
            ),
            None => None,
        }
    }
}

/// The manifest encoded by a persisted file, if it parses.
pub open spec fn deser_manifest(s: Seq<char>) -> Option<ManifestView> {
    let lines = codec::split(s, '\n');
    if lines[0] != sys_header() {
        None
    } else {
        deser_sections(lines.skip(1))
    }
}

/// Prefix already collected while scanning the system section.
pub open spec fn prepend_sys(acc: Seq<Seq<char>>, o: Option<ManifestView>) -> Option<
    ManifestView,
> {
    match o {
        Some(m) => Some(ManifestView { system: acc + m.system, profile: m.profile }),
        None => None,
    }
}

/// A strictly sorted list never lists a name twice.
pub proof fn lemma_sorted_distinct(v: Seq<Seq<char>>)
    requires
        sorted_strict(v),
    ensures
        forall|i: int, j: int| 0 <= i < j < v.len() ==> v[i] != v[j],
{
    assert forall|i: int, j: int| 0 <= i < j < v.len() implies v[i] != v[j] by {
        order::lemma_lex_trichotomy(v[i], v[j]);
    }
}

/// The section headers fit on one line and can never be package names.
pub proof fn lemma_header_chars()
    ensures
        sys_header().len() == 17,
        prof_header().len() == 18,
        codec::no_char(sys_header(), '\n'),
        codec::no_char(prof_header(), '\n'),
        sys_header()[0] == '[',
        prof_header()[0] == '[',
{
    reveal_strlit("[system-packages]");
    reveal_strlit("[profile-packages]");
    assert forall|i: int| 0 <= i < sys_header().len() implies sys_header()[i] != '\n' by {
        if i == 0 {
        } else if i == 1 {
        } else if i == 2 {
        } else if i == 3 {
        } else if i == 4 {
        } else if i == 5 {
        } else if i == 6 {
        } else if i == 7 {
        } else if i == 8 {
        } else if i == 9 {
        } else if i == 10 {
        } else if i == 11 {
        } else if i == 12 {
        } else if i == 13 {
        } else if i == 14 {
        } else if i == 15 {
        } else {
            assert(i == 16);
        }
    }
    assert forall|i: int| 0 <= i < prof_header().len() implies prof_header()[i] != '\n' by {
        if i == 0 {
        } else if i == 1 {
        } else if i == 2 {
        } else if i == 3 {
        } else if i == 4 {
        } else if i == 5 {
        } else if i == 6 {
        } else if i == 7 {
        } else if i == 8 {
        } else if i == 9 {
        } else if i == 10 {
        } else if i == 11 {
        } else if i == 12 {
        } else if i == 13 {
        } else if i == 14 {
        } else if i == 15 {
        } else if i == 16 {
        } else {
            assert(i == 17);
        }
    }
}

/// Parsing the section lines of a well-formed manifest restores its sets.
proof fn lemma_deser_sections_of_lines(sys: Seq<Seq<char>>, prof: Seq<Seq<char>>)
    requires
        all_valid(sys),
    ensures
        deser_sections(sys + seq![prof_header()] + prof) == Some(
            ManifestView { system: sys, profile: prof },
        ),
    decreases sys.len(),
{
    lemma_header_chars();
    let rest = sys + seq![prof_header()] + prof;
    if sys.len() == 0 {
        assert(rest[0] == prof_header());
        assert(rest.skip(1) =~= prof);
        assert(Seq::<Seq<char>>::empty() =~= sys);
        assert(deser_sections(rest) == Some(ManifestView { system: sys, profile: prof }));
    } else {
        assert(rest[0] == sys[0]);
        assert(valid_pkg(sys[0]));
        assert(sys[0][0] != '[');
        assert(sys[0] != prof_header());
        assert(forall|i: int| 0 <= i < sys.skip(1).len() ==> #[trigger] sys.skip(1)[i] == sys[i + 1]);
        lemma_deser_sections_of_lines(sys.skip(1), prof);
        assert(rest.skip(1) =~= sys.skip(1) + seq![prof_header()] + prof);
        assert(deser_sections(rest) == Some(
            ManifestView { system: seq![sys[0]] + sys.skip(1), profile: prof },
        ));
        assert(seq![sys[0]] + sys.skip(1) =~= sys);
        assert(ManifestView { system: seq![sys[0]] + sys.skip(1), profile: prof } =~= ManifestView {
            system: sys,
            profile: prof,
        });
    }
}

/// Round trip: loading what `save` wrote restores the identical manifest.
pub proof fn lemma_manifest_deser_ser(m: ManifestView)
    requires
        wf_view(m),
    ensures
        deser_manifest(ser_manifest(m)) == Some(m),
{
    lemma_header_chars();
    let lines = manifest_lines(m);
    assert forall|i: int| 0 <= i < lines.len() implies codec::no_char(#[trigger] lines[i], '\n') by {
        if i == 0 {
            assert(lines[i] == sys_header());
        } else if i <= m.system.len() {
            assert(lines[i] == m.system[i - 1]);
            assert(valid_pkg(m.system[i - 1]));
        } else if i == m.system.len() + 1 {
            assert(lines[i] == prof_header());
        } else {
            assert(lines[i] == m.profile[i - m.system.len() - 2]);
            assert(valid_pkg(m.profile[i - m.system.len() - 2]));
        }
    }
    codec::lemma_split_join(lines, '\n');
    assert(codec::split(ser_manifest(m), '\n') == lines);
    assert(lines[0] == sys_header());
    assert(lines.skip(1) =~= m.system + seq![prof_header()] + m.profile);
    lemma_deser_sections_of_lines(m.system, m.profile);
    assert(ManifestView { system: m.system, profile: m.profile } =~= m);
}

/// A strictly sorted list is determined by its member set: two such lists
/// with the same members are identical. Contracts that fix membership and
/// order therefore pin the result completely.
pub proof fn lemma_sorted_unique(a: Seq<Seq<char>>, b: Seq<Seq<char>>)
    requires
        sorted_strict(a),
        sorted_strict(b),
        forall|x: Seq<char>| a.contains(x) <==> b.contains(x),
    ensures
        a == b,
    decreases a.len(),
{
    if a.len() == 0 {
        if b.len() > 0 {
            assert(b.contains(b[0]));
            assert(a.contains(b[0]));
        }
        assert(a =~= b);
    } else {
        assert(a.contains(a[0]));
        assert(b.contains(a[0]));
        let j = choose|j: int| 0 <= j < b.len() && b[j] == a[0];
        assert(b.contains(b[0]));
        assert(a.contains(b[0]));
        let i = choose|i: int| 0 <= i < a.len() && a[i] == b[0];
        assert(a[0] == b[0]) by {
            if i > 0 && j > 0 {
                assert(order::lex_lt(a[0], a[i]));
                assert(order::lex_lt(b[0], b[j]));
                order::lemma_lex_trichotomy(a[0], b[0]);
            }
        }
        let at = a.skip(1);
        let bt = b.skip(1);
        assert(forall|k: int| 0 <= k < at.len() ==> #[trigger] at[k] == a[k + 1]);
        assert(forall|k: int| 0 <= k < bt.len() ==> #[trigger] bt[k] == b[k + 1]);
        assert forall|x: Seq<char>| at.contains(x) <==> bt.contains(x) by {
            if at.contains(x) {
                let k = choose|k: int| 0 <= k < at.len() && at[k] == x;
                assert(a[k + 1] == x);
                assert(a.contains(x));
                assert(x != b[0]) by {
                    assert(order::lex_lt(a[0], a[k + 1]));
                    order::lemma_lex_trichotomy(a[0], a[k + 1]);
                }
                assert(b.contains(x));
                let l = choose|l: int| 0 <= l < b.len() && b[l] == x;
                assert(l != 0);
                assert(bt[l - 1] == x);
                assert(bt.contains(x));
            }
            if bt.contains(x) {
                let k = choose|k: int| 0 <= k < bt.len() && bt[k] == x;
                assert(b[k + 1] == x);
                assert(b.contains(x));
                assert(x != a[0]) by {
                    assert(order::lex_lt(b[0], b[k + 1]));
                    order::lemma_lex_trichotomy(b[0], b[k + 1]);
                }
                assert(a.contains(x));
                let l = choose|l: int| 0 <= l < a.len() && a[l] == x;
                assert(l != 0);
                assert(at[l - 1] == x);
                assert(at.contains(x));
            }
        }
        lemma_sorted_unique(at, bt);
        assert(a.len() == b.len());
        assert forall|k: int| 0 <= k < a.len() implies a[k] == b[k] by {
            if k > 0 {
                assert(at[k - 1] == bt[k - 1]);
            }
        }
        assert(a =~= b);
    }
}

/// Disjointness is symmetric.
pub proof fn lemma_disjoint_sym(a: Seq<Seq<char>>, b: Seq<Seq<char>>)
    requires
        disjoint_sets(a, b),
    ensures
        disjoint_sets(b, a),
{
    assert forall|i: int| 0 <= i < b.len() implies !a.contains(#[trigger] b[i]) by {
        if a.contains(b[i]) {
            let j = choose|j: int| 0 <= j < a.len() && a[j] == b[i];
            assert(!b.contains(a[j]));
        }
    }
}

/// A chain of adjacent comparisons orders any two positions.
proof fn lemma_lex_chain(v: Seq<Seq<char>>, i: int, j: int)
    requires
        forall|k: int| 0 <= k < v.len() - 1 ==> order::lex_lt(#[trigger] v[k], v[k + 1]),
        0 <= i < j < v.len(),
    ensures
        order::lex_lt(v[i], v[j]),
    decreases j - i,
{
    if j == i + 1 {
    } else {
        lemma_lex_chain(v, i, j - 1);
        order::lemma_lex_transitive(v[i], v[j - 1], v[j]);
    }
}

/// Adjacent ascending order gives the full strict order.
pub proof fn lemma_adjacent_sorted(v: Seq<Seq<char>>)
    requires
        forall|k: int| 0 <= k < v.len() - 1 ==> order::lex_lt(#[trigger] v[k], v[k + 1]),
    ensures
        sorted_strict(v),
{
    assert forall|i: int, j: int| 0 <= i < j < v.len() implies order::lex_lt(v[i], v[j]) by {
        lemma_lex_chain(v, i, j);
    }
}

/// Whether the list is strictly sorted and every entry a valid package
/// name, as the persisted format demands.
fn check_sorted_valid(v: &Vec<String>) -> (r: bool)
    ensures
        r == (sorted_strict(v.deep_view()) && all_valid(v.deep_view())),
{
    let ghost dv = v.deep_view();
    let mut i: usize = 0;
    while i < v.len()
        invariant
            i <= v.len(),
            dv == v.deep_view(),
            dv.len() == v@.len(),
            forall|j: int| 0 <= j < i ==> valid_pkg(#[trigger] dv[j]),
            forall|j: int| 0 <= j < i - 1 ==> order::lex_lt(#[trigger] dv[j], dv[j + 1]),
        decreases v.len() - i,
    {
        proof {
            assert(v@[i as int]@ == dv[i as int]);
        }
        if !check_pkg_chars(v[i].as_str()) {
            proof {
                assert(!valid_pkg(dv[i as int]));
            }
            return false;
        }
        if i > 0 {
            proof {
                assert(v@[i - 1]@ == dv[i - 1]);
            }
            if !order::str_lt(v[i - 1].as_str(), v[i].as_str()) {
                proof {
                    assert(!order::lex_lt(dv[i - 1], dv[i as int]));
                    assert(!sorted_strict(dv));
                }
                return false;
            }
        }
        i = i + 1;
    }
    proof {
        lemma_adjacent_sorted(dv);
    }
    true
}

/// Whether no entry of `a` stands in `b`.
fn check_disjoint(a: &Vec<String>, b: &Vec<String>) -> (r: bool)
    ensures
        r == disjoint_sets(a.deep_view(), b.deep_view()),
{
    let mut i: usize = 0;
    while i < a.len()
        invariant
            i <= a.len(),
            a.deep_view().len() == a@.len(),
            forall|j: int| 0 <= j < i ==> !b.deep_view().contains(#[trigger] a.deep_view()[j]),
        decreases a.len() - i,
    {
        proof {
            assert(a@[i as int]@ == a.deep_view()[i as int]);
        }
        if order::vec_contains_str(b, a[i].as_str()) {
            return false;
        }
        i = i + 1;
    }
    true
}

/// An element-wise copy of a string list.
pub fn clone_string_vec(v: &Vec<String>) -> (r: Vec<String>)
    ensures
        r.deep_view() == v.deep_view(),
        r@.len() == v@.len(),
{
    let mut r: Vec<String> = Vec::new();
    let mut i: usize = 0;
    while i < v.len()
        invariant
            i <= v.len(),
            v.deep_view().len() == v@.len(),
            r.deep_view() == v.deep_view().take(i as int),
        decreases v.len() - i,
    {
        let ghost pre = r.deep_view();
        r.push(v[i].clone());
        proof {
            assert(v@[i as int]@ == v.deep_view()[i as int]);
            assert(r.deep_view() =~= pre.push(v.deep_view()[i as int]));
            assert(v.deep_view().take(i + 1) =~= pre.push(v.deep_view()[i as int]));
        }
        i = i + 1;
    }
    proof {
        assert(v.deep_view().take(v.deep_view().len() as int) =~= v.deep_view());
    }
    r
}

/// The packages installed in `a` but not in `b`, in sorted order: one half
/// of a snapshot diff.
pub fn diff_packages(a: &ProfileManifest, b: &ProfileManifest) -> (r: Vec<String>)
    requires
        a.wf(),
        b.wf(),
    ensures
        sorted_strict(r.deep_view()),
        forall|x: Seq<char>| r.deep_view().contains(x) <==> member(a@, x) && !member(b@, x),
{
    let all = a.all_packages();
    let ghost adv = all.deep_view();
    let mut r: Vec<String> = Vec::new();
    let mut i: usize = 0;
    proof {
        assert(r.deep_view() =~= Seq::<Seq<char>>::empty());
        assert(adv.take(0) =~= Seq::<Seq<char>>::empty());
    }
    while i < all.len()
        invariant
            i <= all.len(),
            b.wf(),
            adv == all.deep_view(),
            adv.len() == all@.len(),
            sorted_strict(adv),
            forall|x: Seq<char>| adv.contains(x) <==> member(a@, x),
            sorted_strict(r.deep_view()),
            forall|x: Seq<char>|
                r.deep_view().contains(x) <==> adv.take(i as int).contains(x) && !member(b@, x),
            forall|l: int, k: int|
                0 <= l < r.deep_view().len() && i <= k < adv.len() ==> order::lex_lt(
                    #[trigger] r.deep_view()[l],
                    #[trigger] adv[k],
                ),
        decreases all.len() - i,
    {
        proof {
            assert(all@[i as int]@ == adv[i as int]);
        }
        let ghost pre = r.deep_view();
        let in_b = b.contains(SetName::SystemPackages, all[i].as_str()) || b.contains(
            SetName::ProfilePackages,
            all[i].as_str(),
        );
        if !in_b {
            r.push(all[i].clone());
        }
        proof {
            let t1 = adv.take(i + 1);
            assert(t1.drop_last() =~= adv.take(i as int));
            assert(t1.last() == adv[i as int]);
            if !in_b {
                assert(r.deep_view() =~= pre.push(adv[i as int]));
                assert forall|x: Seq<char>| r.deep_view().contains(x) implies t1.contains(x)
                    && !member(b@, x) by {
                    let l = choose|l: int|
                        0 <= l < r.deep_view().len() && r.deep_view()[l] == x;
                    if l < pre.len() {
                        assert(pre.contains(x));
                        let l2 = choose|l2: int|
                            0 <= l2 < adv.take(i as int).len() && #[trigger] adv.take(
                                i as int,
                            )[l2] == x;
                        assert(t1[l2] == x);
                    } else {
                        assert(x == adv[i as int]);
                        assert(t1.last() == x);
                        assert(adv.contains(adv[i as int])) by {
                            assert(adv[i as int] == adv[i as int]);
                        }
                    }
                }
                assert forall|x: Seq<char>| t1.contains(x) && !member(b@, x) implies
                    r.deep_view().contains(x) by {
                    let l = choose|l: int| 0 <= l < t1.len() && t1[l] == x;
                    if l < i {
                        assert(adv.take(i as int)[l] == x);
                        assert(pre.contains(x));
                        let l2 = choose|l2: int| 0 <= l2 < pre.len() && pre[l2] == x;
                        assert(r.deep_view()[l2] == x);
                    } else {
                        assert(r.deep_view().last() == x);
                    }
                }
                assert forall|l: int, k: int|
                    0 <= l < r.deep_view().len() && l < k < r.deep_view().len() implies
                    order::lex_lt(r.deep_view()[l], r.deep_view()[k]) by {
                    if k < pre.len() {
                    } else {
                        assert(r.deep_view()[k] == adv[i as int]);
                        if l < pre.len() {
                            assert(order::lex_lt(pre[l], adv[i as int]));
                        }
                    }
                }
                assert forall|l: int, k: int|
                    0 <= l < r.deep_view().len() && i + 1 <= k < adv.len() implies order::lex_lt(
                    #[trigger] r.deep_view()[l],
                    #[trigger] adv[k],
                ) by {
                    if l < pre.len() {
                        assert(order::lex_lt(pre[l], adv[k]));
                    } else {
                        assert(r.deep_view()[l] == adv[i as int]);
                        assert(order::lex_lt(adv[i as int], adv[k]));
                    }
                }
            } else {
                assert forall|x: Seq<char>| t1.contains(x) && !member(b@, x) implies
                    r.deep_view().contains(x) by {
                    let l = choose|l: int| 0 <= l < t1.len() && t1[l] == x;
                    if l < i {
                        assert(adv.take(i as int)[l] == x);
                    } else {
                        assert(x == adv[i as int]);
                        assert(member(b@, x));
                    }
                }
                assert forall|x: Seq<char>| r.deep_view().contains(x) implies t1.contains(x)
                    && !member(b@, x) by {
                    let l2 = choose|l2: int|
                        0 <= l2 < adv.take(i as int).len() && #[trigger] adv.take(i as int)[l2]
                            == x;
                    assert(t1[l2] == x);
                }
            }
        }
        i = i + 1;
    }
    proof {
        assert(adv.take(adv.len() as int) =~= adv);
        assert forall|x: Seq<char>|
            r.deep_view().contains(x) <==> member(a@, x) && !member(b@, x) by {
            if member(a@, x) && !member(b@, x) {
                assert(adv.contains(x));
            }
            if r.deep_view().contains(x) {
                assert(adv.contains(x));
            }
        }
    }
    r
}

/// Whether `pkg` may be recorded: nonempty, single line, not header-like.
pub fn check_pkg_chars(pkg: &str) -> (r: bool)
    ensures
        r == valid_pkg(pkg@),
{
    let len = pkg.unicode_len();
    if len == 0 {
        return false;
    }
    if pkg.get_char(0) == '[' {
        return false;
    }
    let mut i: usize = 0;
    while i < len
        invariant
            i <= len,
            len == pkg@.len(),
            forall|j: int| 0 <= j < i ==> pkg@[j] != '\n',
        decreases len - i,
    {
        if pkg.get_char(i) == '\n' {
            return false;
        }
        i = i + 1;
    }
    true
}

/// Insert `pkg` into a strictly sorted list, keeping it strictly sorted;
/// a present name is left alone.
fn sorted_insert(v: &mut Vec<String>, pkg: &str)
    requires
        sorted_strict(old(v).deep_view()),
        all_valid(old(v).deep_view()),
        valid_pkg(pkg@),
    ensures
        sorted_strict(final(v).deep_view()),
        all_valid(final(v).deep_view()),
        forall|x: Seq<char>|
            final(v).deep_view().contains(x) <==> old(v).deep_view().contains(x) || x == pkg@,
{
    let ghost dv0 = v.deep_view();
    let mut k: usize = 0;
    while k < v.len() && order::str_lt(v[k].as_str(), pkg)
        invariant
            k <= v.len(),
            dv0 == v.deep_view(),
            dv0 == old(v).deep_view(),
            dv0.len() == v@.len(),
            sorted_strict(dv0),
            all_valid(dv0),
            forall|j: int| 0 <= j < k ==> order::lex_lt(#[trigger] dv0[j], pkg@),
        decreases v.len() - k,
    {
        proof {
            assert(v@[k as int]@ == dv0[k as int]);
        }
        k = k + 1;
    }
    if k < v.len() && order::str_eq(v[k].as_str(), pkg) {
        proof {
            assert(dv0[k as int] == pkg@);
            assert(dv0.contains(pkg@));
            assert(forall|x: Seq<char>|
                v.deep_view().contains(x) <==> dv0.contains(x) || x == pkg@);
        }
        return ;
    }
    proof {
        if k < dv0.len() {
            assert(v@[k as int]@ == dv0[k as int]);
            assert(!order::lex_lt(dv0[k as int], pkg@));
            assert(dv0[k as int] != pkg@);
            order::lemma_lex_trichotomy(pkg@, dv0[k as int]);
            assert(order::lex_lt(pkg@, dv0[k as int]));
        }
    }
    v.insert(k, pkg.to_owned());
    proof {
        let dv1 = v.deep_view();
        assert(dv1 =~= dv0.insert(k as int, pkg@));
        assert forall|i: int, j: int| 0 <= i < j < dv1.len() implies order::lex_lt(
            dv1[i],
            dv1[j],
        ) by {
            let i0 = if i < k { i } else { i - 1 };
            let j0 = if j < k { j } else { j - 1 };
            if i == k {
                assert(dv1[j] == dv0[j0]);
                assert(order::lex_lt(pkg@, dv0[k as int]));
                if j0 > k {
                    order::lemma_lex_transitive(pkg@, dv0[k as int], dv0[j0]);
                }
            } else if j == k {
                assert(dv1[i] == dv0[i0]);
            } else {
                assert(dv1[i] == dv0[i0]);
                assert(dv1[j] == dv0[j0]);
                if i0 < j0 {
                } else {
                    assert(i0 == j0 && i < k && j > k);
                    assert(order::lex_lt(dv0[i0], pkg@));
                }
            }
        }
        assert forall|x: Seq<char>| dv1.contains(x) implies dv0.contains(x) || x == pkg@ by {
            let i = choose|i: int| 0 <= i < dv1.len() && dv1[i] == x;
            if i < k {
                assert(dv0[i] == x);
            } else if i > k {
                assert(dv0[i - 1] == x);
            }
        }
        assert forall|x: Seq<char>| dv0.contains(x) || x == pkg@ implies dv1.contains(x) by {
            if x == pkg@ {
                assert(dv1[k as int] == x);
            } else {
                let i = choose|i: int| 0 <= i < dv0.len() && dv0[i] == x;
                if i < k {
                    assert(dv1[i] == x);
                } else {
                    assert(dv1[i + 1] == x);
                }
            }
        }
        assert forall|i: int| 0 <= i < dv1.len() implies valid_pkg(#[trigger] dv1[i]) by {
            if i < k {
                assert(dv1[i] == dv0[i]);
            } else if i > k {
                assert(dv1[i] == dv0[i - 1]);
            }
        }
    }
}

/// Drop `pkg` from a strictly sorted list if present; the result says
/// whether it was.
fn sorted_remove(v: &mut Vec<String>, pkg: &str) -> (r: bool)
    requires
        sorted_strict(old(v).deep_view()),
        all_valid(old(v).deep_view()),
    ensures
        sorted_strict(final(v).deep_view()),
        all_valid(final(v).deep_view()),
        r == old(v).deep_view().contains(pkg@),
        forall|x: Seq<char>|
            final(v).deep_view().contains(x) <==> old(v).deep_view().contains(x) && x != pkg@,
{
    let ghost dv0 = v.deep_view();
    let mut k: usize = 0;
    while k < v.len()
        invariant
            k <= v.len(),
            dv0 == v.deep_view(),
            dv0 == old(v).deep_view(),
            dv0.len() == v@.len(),
            sorted_strict(dv0),
            all_valid(dv0),
            forall|j: int| 0 <= j < k ==> (#[trigger] dv0[j]) != pkg@,
        decreases v.len() - k,
    {
        proof {
            assert(v@[k as int]@ == dv0[k as int]);
        }
        if order::str_eq(v[k].as_str(), pkg) {
            v.remove(k);
            proof {
                let dv1 = v.deep_view();
                assert(dv1 =~= dv0.remove(k as int));
                assert forall|i: int, j: int| 0 <= i < j < dv1.len() implies order::lex_lt(
                    dv1[i],
                    dv1[j],
                ) by {
                    let i0 = if i < k { i } else { i + 1 };
                    let j0 = if j < k { j } else { j + 1 };
                    assert(dv1[i] == dv0[i0]);
                    assert(dv1[j] == dv0[j0]);
                }
                assert forall|i: int| 0 <= i < dv1.len() implies valid_pkg(
                    #[trigger] dv1[i],
                ) by {
                    let i0 = if i < k { i } else { i + 1 };
                    assert(dv1[i] == dv0[i0]);
                }
                assert forall|x: Seq<char>| dv1.contains(x) implies dv0.contains(x) && x
                    != pkg@ by {
                    let i = choose|i: int| 0 <= i < dv1.len() && dv1[i] == x;
                    let i0 = if i < k { i } else { i + 1 };
                    assert(dv0[i0] == x);
                    if x == pkg@ {
                        if i0 < k as int {
                        } else {
                            assert(order::lex_lt(dv0[k as int], dv0[i0]));
                            order::lemma_lex_trichotomy(dv0[k as int], dv0[i0]);
                        }
                    }
                }
                assert forall|x: Seq<char>| dv0.contains(x) && x != pkg@ implies dv1.contains(
                    x,
                ) by {
                    let i = choose|i: int| 0 <= i < dv0.len() && dv0[i] == x;
                    if i < k {
                        assert(dv1[i] == x);
                    } else {
                        assert(i != k);
                        assert(dv1[i - 1] == x);
                    }
                }
                assert(dv0[k as int] == pkg@);
                assert(dv0.contains(pkg@));
            }
            return true;
        }
        k = k + 1;
    }
    proof {
        assert(forall|j: int| 0 <= j < dv0.len() ==> (#[trigger] dv0[j]) != pkg@);
        assert(!dv0.contains(pkg@));
    }
    false
}

} // verus!
