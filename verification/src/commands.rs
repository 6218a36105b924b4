//! Construction of the external command lines the engine asks its caller to
//! run, and parsing of package-manager output. The caller performs the
//! commands and reports exit status back; everything decided here is exact.

use vstd::prelude::*;

use crate::codec;
use crate::errs::{AshError, OpKind};
use crate::order;

verus! {

/// Root path of the mutable overlay of a snapshot.
pub open spec fn chroot_path_spec(snapshot: Seq<char>) -> Seq<char> {
    "/.snapshots/rootfs/snapshot-chr"@ + snapshot
}

/// Root path of an immutable snapshot.
pub open spec fn snapshot_path_spec(snapshot: Seq<char>) -> Seq<char> {
    "/.snapshots/rootfs/snapshot-"@ + snapshot
}

pub fn chroot_path(snapshot: &str) -> (r: String)
    ensures
        r@ == chroot_path_spec(snapshot@),
{
    let mut s = ("/.snapshots/rootfs/snapshot-chr").to_owned();
    s.append(snapshot);
    s
}

pub fn snapshot_path(snapshot: &str) -> (r: String)
    ensures
        r@ == snapshot_path_spec(snapshot@),
{
    let mut s = ("/.snapshots/rootfs/snapshot-").to_owned();
    s.append(snapshot);
    s
}

/// `apt-get install` inside the target root, non-interactive on request.
pub open spec fn install_cmd(target: Seq<char>, pkg: Seq<char>, noconfirm: bool) -> Seq<
    Seq<char>,
> {
    let base = seq!["chroot"@, target, "apt-get"@, "install"@, pkg];
    if noconfirm {
        base.push("-y"@)
    } else {
        base
    }
}

/// `apt-get remove` inside the target root, non-interactive on request.
pub open spec fn uninstall_cmd(target: Seq<char>, pkg: Seq<char>, noconfirm: bool) -> Seq<
    Seq<char>,
> {
    let base = seq!["chroot"@, target, "apt-get"@, "remove"@, pkg];
    if noconfirm {
        base.push("-y"@)
    } else {
        base
    }
}

/// `apt-get update` inside the target root.
pub open spec fn refresh_cmd(target: Seq<char>) -> Seq<Seq<char>> {
    seq!["chroot"@, target, "apt-get"@, "update"@, "-y"@]
}

/// `apt-get upgrade` inside the target root, non-interactive on request.
pub open spec fn upgrade_cmd(target: Seq<char>, noconfirm: bool) -> Seq<Seq<char>> {
    let base = seq!["chroot"@, target, "apt-get"@, "upgrade"@];
    if noconfirm {
        base.push("-y"@)
    } else {
        base
    }
}

/// `systemctl <action>` for one service inside the target root.
pub open spec fn service_cmd(target: Seq<char>, action: Seq<char>, service: Seq<char>) -> Seq<
    Seq<char>,
> {
    seq!["chroot"@, target, "systemctl"@, action, service]
}

fn build_pkg_cmd(target: &str, verb: &str, pkg: &str, noconfirm: bool) -> (r: Vec<String>)
    ensures
        verb@ == "install"@ ==> r.deep_view() == install_cmd(target@, pkg@, noconfirm),
        verb@ == "remove"@ ==> r.deep_view() == uninstall_cmd(target@, pkg@, noconfirm),
{
    let mut r: Vec<String> = Vec::new();
    r.push(("chroot").to_owned());
    r.push(target.to_owned());
    r.push(("apt-get").to_owned());
    r.push(verb.to_owned());
    r.push(pkg.to_owned());
    if noconfirm {
        r.push(("-y").to_owned());
        proof {
            assert(r.deep_view() =~= seq!["chroot"@, target@, "apt-get"@, verb@, pkg@, "-y"@]);
        }
    } else {
        proof {
            assert(r.deep_view() =~= seq!["chroot"@, target@, "apt-get"@, verb@, pkg@]);
        }
    }
    r
}

/// The index-refresh invocation for a prepared snapshot.
pub fn refresh_helper(snapshot: &str) -> (r: Vec<String>)
    ensures
        r.deep_view() == refresh_cmd(chroot_path_spec(snapshot@)),
{
    let mut r: Vec<String> = Vec::new();
    r.push(("chroot").to_owned());
    r.push(chroot_path(snapshot));
    r.push(("apt-get").to_owned());
    r.push(("update").to_owned());
    r.push(("-y").to_owned());
    proof {
        assert(r.deep_view() =~= refresh_cmd(chroot_path_spec(snapshot@)));
    }
    r
}

/// The upgrade workflow for a prepared snapshot: a full index refresh
/// followed by an upgrade-all invocation.
pub fn upgrade_helper(snapshot: &str, noconfirm: bool) -> (r: Vec<Vec<String>>)
    ensures
        r@.len() == 2,
        r@[0].deep_view() == refresh_cmd(chroot_path_spec(snapshot@)),
        r@[1].deep_view() == upgrade_cmd(chroot_path_spec(snapshot@), noconfirm),
{
    let mut r: Vec<Vec<String>> = Vec::new();
    r.push(refresh_helper(snapshot));
    let mut up: Vec<String> = Vec::new();
    up.push(("chroot").to_owned());
    up.push(chroot_path(snapshot));
    up.push(("apt-get").to_owned());
    up.push(("upgrade").to_owned());
    if noconfirm {
        up.push(("-y").to_owned());
        proof {
            assert(up.deep_view() =~= upgrade_cmd(chroot_path_spec(snapshot@), noconfirm));
        }
    } else {
        proof {
            assert(up.deep_view() =~= upgrade_cmd(chroot_path_spec(snapshot@), noconfirm));
        }
    }
    r.push(up);
    r
}

/// The upgrade-all invocation against the live snapshot root.
pub fn upgrade_helper_live(tmp: &str, noconfirm: bool) -> (r: Vec<String>)
    ensures
        r.deep_view() == upgrade_cmd(snapshot_path_spec(tmp@), noconfirm),
{
    let mut r: Vec<String> = Vec::new();
    r.push(("chroot").to_owned());
    r.push(snapshot_path(tmp));
    r.push(("apt-get").to_owned());
    r.push(("upgrade").to_owned());
    if noconfirm {
        r.push(("-y").to_owned());
        proof {
            assert(r.deep_view() =~= upgrade_cmd(snapshot_path_spec(tmp@), noconfirm));
        }
    } else {
        proof {
            assert(r.deep_view() =~= upgrade_cmd(snapshot_path_spec(tmp@), noconfirm));
        }
    }
    r
}

/// One install invocation per requested package, against the overlay root.
pub fn install_package_helper_chroot(snapshot: &str, pkgs: &Vec<String>, noconfirm: bool) -> (r:
    Vec<Vec<String>>)
    ensures
        r@.len() == pkgs@.len(),
        forall|i: int|
            0 <= i < r@.len() ==> (#[trigger] r@[i]).deep_view() == install_cmd(
                chroot_path_spec(snapshot@),
                pkgs.deep_view()[i],
                noconfirm,
            ),
{
    let target = chroot_path(snapshot);
    let mut r: Vec<Vec<String>> = Vec::new();
    let mut i: usize = 0;
    while i < pkgs.len()
        invariant
            i <= pkgs.len(),
            r@.len() == i,
            pkgs.deep_view().len() == pkgs@.len(),
            target@ == chroot_path_spec(snapshot@),
            forall|j: int|
                0 <= j < i ==> (#[trigger] r@[j]).deep_view() == install_cmd(
                    chroot_path_spec(snapshot@),
                    pkgs.deep_view()[j],
                    noconfirm,
                ),
        decreases pkgs.len() - i,
    {
        proof {
            assert(pkgs@[i as int]@ == pkgs.deep_view()[i as int]);
        }
        r.push(build_pkg_cmd(target.as_str(), "install", pkgs[i].as_str(), noconfirm));
        i = i + 1;
    }
    r
}

/// One install invocation per requested package, against the live root.
pub fn install_package_helper_live(tmp: &str, pkgs: &Vec<String>, noconfirm: bool) -> (r: Vec<
    Vec<String>,
>)
    ensures
        r@.len() == pkgs@.len(),
        forall|i: int|
            0 <= i < r@.len() ==> (#[trigger] r@[i]).deep_view() == install_cmd(
                snapshot_path_spec(tmp@),
                pkgs.deep_view()[i],
                noconfirm,
            ),
{
    let target = snapshot_path(tmp);
    let mut r: Vec<Vec<String>> = Vec::new();
    let mut i: usize = 0;
    while i < pkgs.len()
        invariant
            i <= pkgs.len(),
            r@.len() == i,
            pkgs.deep_view().len() == pkgs@.len(),
            target@ == snapshot_path_spec(tmp@),
            forall|j: int|
                0 <= j < i ==> (#[trigger] r@[j]).deep_view() == install_cmd(
                    snapshot_path_spec(tmp@),
                    pkgs.deep_view()[j],
                    noconfirm,
                ),
        decreases pkgs.len() - i,
    {
        proof {
            assert(pkgs@[i as int]@ == pkgs.deep_view()[i as int]);
        }
        r.push(build_pkg_cmd(target.as_str(), "install", pkgs[i].as_str(), noconfirm));
        i = i + 1;
    }
    r
}

/// One remove invocation per package, against the overlay root.
pub fn uninstall_package_helper_chroot(snapshot: &str, pkgs: &Vec<String>, noconfirm: bool) -> (r:
    Vec<Vec<String>>)
    ensures
        r@.len() == pkgs@.len(),
        forall|i: int|
            0 <= i < r@.len() ==> (#[trigger] r@[i]).deep_view() == uninstall_cmd(
                chroot_path_spec(snapshot@),
                pkgs.deep_view()[i],
                noconfirm,
            ),
{
    let target = chroot_path(snapshot);
    let mut r: Vec<Vec<String>> = Vec::new();
    let mut i: usize = 0;
    while i < pkgs.len()
        invariant
            i <= pkgs.len(),
            r@.len() == i,
            pkgs.deep_view().len() == pkgs@.len(),
            target@ == chroot_path_spec(snapshot@),
            forall|j: int|
                0 <= j < i ==> (#[trigger] r@[j]).deep_view() == uninstall_cmd(
                    chroot_path_spec(snapshot@),
                    pkgs.deep_view()[j],
                    noconfirm,
                ),
        decreases pkgs.len() - i,
    {
        proof {
            assert(pkgs@[i as int]@ == pkgs.deep_view()[i as int]);
        }
        r.push(build_pkg_cmd(target.as_str(), "remove", pkgs[i].as_str(), noconfirm));
        i = i + 1;
    }
    r
}

/// One remove invocation per package, against the live root.
pub fn uninstall_package_helper_live(tmp: &str, pkgs: &Vec<String>, noconfirm: bool) -> (r: Vec<
    Vec<String>,
>)
    ensures
        r@.len() == pkgs@.len(),
        forall|i: int|
            0 <= i < r@.len() ==> (#[trigger] r@[i]).deep_view() == uninstall_cmd(
                snapshot_path_spec(tmp@),
                pkgs.deep_view()[i],
                noconfirm,
            ),
{
    let target = snapshot_path(tmp);
    let mut r: Vec<Vec<String>> = Vec::new();
    let mut i: usize = 0;
    while i < pkgs.len()
        invariant
            i <= pkgs.len(),
            r@.len() == i,
            pkgs.deep_view().len() == pkgs@.len(),
            target@ == snapshot_path_spec(tmp@),
            forall|j: int|
                0 <= j < i ==> (#[trigger] r@[j]).deep_view() == uninstall_cmd(
                    snapshot_path_spec(tmp@),
                    pkgs.deep_view()[j],
                    noconfirm,
                ),
        decreases pkgs.len() - i,
    {
        proof {
            assert(pkgs@[i as int]@ == pkgs.deep_view()[i as int]);
        }
        r.push(build_pkg_cmd(target.as_str(), "remove", pkgs[i].as_str(), noconfirm));
        i = i + 1;
    }
    r
}

fn service_cmds(snapshot: &str, services: &Vec<String>, chr: &str, action: &str) -> (r: Vec<
    Vec<String>,
>)
    ensures
        r@.len() == services@.len(),
        forall|i: int|
            0 <= i < r@.len() ==> (#[trigger] r@[i]).deep_view() == service_cmd(
                "/.snapshots/rootfs/snapshot-"@ + chr@ + snapshot@,
                action@,
                services.deep_view()[i],
            ),
{
    let mut target = ("/.snapshots/rootfs/snapshot-").to_owned();
    target.append(chr);
    target.append(snapshot);
    let mut r: Vec<Vec<String>> = Vec::new();
    let mut i: usize = 0;
    while i < services.len()
        invariant
            i <= services.len(),
            r@.len() == i,
            services.deep_view().len() == services@.len(),
            target@ == "/.snapshots/rootfs/snapshot-"@ + chr@ + snapshot@,
            forall|j: int|
                0 <= j < i ==> (#[trigger] r@[j]).deep_view() == service_cmd(
                    "/.snapshots/rootfs/snapshot-"@ + chr@ + snapshot@,
                    action@,
                    services.deep_view()[j],
                ),
        decreases services.len() - i,
    {
        let mut c: Vec<String> = Vec::new();
        c.push(("chroot").to_owned());
        c.push(target.clone());
        c.push(("systemctl").to_owned());
        c.push(action.to_owned());
        c.push(services[i].clone());
        proof {
            assert(services@[i as int]@ == services.deep_view()[i as int]);
            assert(c.deep_view() =~= service_cmd(
                "/.snapshots/rootfs/snapshot-"@ + chr@ + snapshot@,
                action@,
                services.deep_view()[i as int],
            ));
        }
        r.push(c);
        i = i + 1;
    }
    r
}

/// One `systemctl enable` invocation per service.
pub fn service_enable(snapshot: &str, services: &Vec<String>, chr: &str) -> (r: Vec<Vec<String>>)
    ensures
        r@.len() == services@.len(),
        forall|i: int|
            0 <= i < r@.len() ==> (#[trigger] r@[i]).deep_view() == service_cmd(
                "/.snapshots/rootfs/snapshot-"@ + chr@ + snapshot@,
                "enable"@,
                services.deep_view()[i],
            ),
{
    service_cmds(snapshot, services, chr, "enable")
}

/// One `systemctl disable` invocation per service.
pub fn service_disable(snapshot: &str, services: &Vec<String>, chr: &str) -> (r: Vec<Vec<String>>)
    ensures
        r@.len() == services@.len(),
        forall|i: int|
            0 <= i < r@.len() ==> (#[trigger] r@[i]).deep_view() == service_cmd(
                "/.snapshots/rootfs/snapshot-"@ + chr@ + snapshot@,
                "disable"@,
                services.deep_view()[i],
            ),
{
    service_cmds(snapshot, services, chr, "disable")
}

/// Whitespace as the probe's output may carry it around the token.
pub open spec fn is_space(c: char) -> bool {
    c == ' ' || c == '\n' || c == '\t' || c == '\r'
}

/// `s` with trailing whitespace removed.
pub open spec fn trim_trailing(s: Seq<char>) -> Seq<char>
    decreases s.len(),
{
    if s.len() > 0 && is_space(s.last()) {
        trim_trailing(s.drop_last())
    } else {
        s
    }
}

/// `s` with leading whitespace removed.
pub open spec fn trim_leading(s: Seq<char>) -> Seq<char>
    decreases s.len(),
{
    if s.len() > 0 && is_space(s[0]) {
        trim_leading(s.skip(1))
    } else {
        s
    }
}

/// `s` with whitespace removed on both ends.
pub open spec fn trimmed(s: Seq<char>) -> Seq<char> {
    trim_leading(trim_trailing(s))
}

fn space_char(c: char) -> (r: bool)
    ensures
        r == is_space(c),
{
    c == ' ' || c == '\n' || c == '\t' || c == '\r'
}

/// Whether `systemctl is-enabled` reported the service enabled: its raw
/// standard output, trimmed of surrounding whitespace, is the token
/// `enabled`.
pub fn is_service_enabled(stdout: &str) -> (r: bool)
    ensures
        r == (trimmed(stdout@) == "enabled"@),
{
    let len = stdout.unicode_len();
    let mut end: usize = len;
    proof {
        assert(stdout@.take(len as int) =~= stdout@);
    }
    while end > 0 && space_char(stdout.get_char(end - 1))
        invariant
            end <= len,
            len == stdout@.len(),
            trim_trailing(stdout@) == trim_trailing(stdout@.take(end as int)),
        decreases end,
    {
        proof {
            assert(stdout@.take(end as int).last() == stdout@[end - 1]);
            assert(stdout@.take(end as int).drop_last() =~= stdout@.take(end - 1));
        }
        end = end - 1;
    }
    proof {
        if end > 0 {
            assert(stdout@.take(end as int).last() == stdout@[end - 1]);
            assert(!is_space(stdout@.take(end as int).last()));
        } else {
            assert(stdout@.take(0).len() == 0);
        }
        assert(trim_trailing(stdout@.take(end as int)) == stdout@.take(end as int));
        assert(stdout@.take(end as int) =~= stdout@.subrange(0, end as int));
    }
    let mut start: usize = 0;
    while start < end && space_char(stdout.get_char(start))
        invariant
            start <= end <= len,
            len == stdout@.len(),
            trimmed(stdout@) == trim_leading(stdout@.subrange(start as int, end as int)),
        decreases end - start,
    {
        proof {
            assert(stdout@.subrange(start as int, end as int)[0] == stdout@[start as int]);
            assert(stdout@.subrange(start as int, end as int).skip(1) =~= stdout@.subrange(
                start + 1,
                end as int,
            ));
        }
        start = start + 1;
    }
    proof {
        if start < end {
            assert(stdout@.subrange(start as int, end as int)[0] == stdout@[start as int]);
            assert(!is_space(stdout@.subrange(start as int, end as int)[0]));
        } else {
            assert(stdout@.subrange(start as int, end as int).len() == 0);
        }
        assert(trim_leading(stdout@.subrange(start as int, end as int)) == stdout@.subrange(
            start as int,
            end as int,
        ));
    }
    let w = stdout.substring_char(start, end);
    order::str_eq(w, "enabled")
}

/// The non-destructive copy of the package cache between the snapshot store
/// and the overlay: into the overlay while preparing, back to shared
/// storage while committing, skipping existing entries either way.
pub fn cache_copy(snapshot: &str, tmp: &str, prepare: bool) -> (r: Vec<String>)
    ensures
        r@.len() == 6,
        r@[0]@ == "cp"@,
        r@[1]@ == "-n"@,
        r@[2]@ == "-r"@,
        r@[3]@ == "--reflink=auto"@,
        prepare ==> r@[4]@ == snapshot_path_spec(snapshot@) + "/var/cache/apt"@ && r@[5]@
            == chroot_path_spec(tmp@) + "/var/cache/apt"@,
        !prepare ==> r@[4]@ == chroot_path_spec(snapshot@) + "/var/cache/apt"@ && r@[5]@
            == snapshot_path_spec(tmp@) + "/var/cache/apt"@,
{
    let mut r: Vec<String> = Vec::new();
    r.push(("cp").to_owned());
    r.push(("-n").to_owned());
    r.push(("-r").to_owned());
    r.push(("--reflink=auto").to_owned());
    if prepare {
        let mut src = snapshot_path(snapshot);
        src.append("/var/cache/apt");
        let mut dst = chroot_path(tmp);
        dst.append("/var/cache/apt");
        r.push(src);
        r.push(dst);
    } else {
        let mut src = chroot_path(snapshot);
        src.append("/var/cache/apt");
        let mut dst = snapshot_path(tmp);
        dst.append("/var/cache/apt");
        r.push(src);
        r.push(dst);
    }
    r
}

/// The overlay directory whose contents a cache clean removes.
pub fn clean_cache(snapshot: &str) -> (r: String)
    ensures
        r@ == chroot_path_spec(snapshot@) + "/var/cache/apt"@,
{
    let mut r = chroot_path(snapshot);
    r.append("/var/cache/apt");
    r
}

/// The shell lines that empty a snapshot's overlay: every recorded
/// uninstall hook inside the overlay root, then a purge of all packages.
pub fn clean_chroot(snapshot: &str, hooks: &Vec<String>) -> (r: Vec<String>)
    ensures
        r@.len() == hooks@.len() + 1,
        forall|i: int|
            0 <= i < hooks@.len() ==> (#[trigger] r@[i])@ == "chroot "@ + chroot_path_spec(
                snapshot@,
            ) + " "@ + hooks.deep_view()[i],
        r@[hooks@.len() as int]@ == "chroot "@ + chroot_path_spec(snapshot@)
            + " apt-get remove --purge $(dpkg --get-selections | awk '{print $1}') --allow-remove-essential -y"@,
{
    let mut r: Vec<String> = Vec::new();
    let mut i: usize = 0;
    while i < hooks.len()
        invariant
            i <= hooks.len(),
            r@.len() == i,
            hooks.deep_view().len() == hooks@.len(),
            forall|j: int|
                0 <= j < i ==> (#[trigger] r@[j])@ == "chroot "@ + chroot_path_spec(snapshot@)
                    + " "@ + hooks.deep_view()[j],
        decreases hooks.len() - i,
    {
        let mut line = ("chroot ").to_owned();
        line.append(chroot_path(snapshot).as_str());
        line.append(" ");
        line.append(hooks[i].as_str());
        proof {
            assert(hooks@[i as int]@ == hooks.deep_view()[i as int]);
        }
        r.push(line);
        i = i + 1;
    }
    let mut purge = ("chroot ").to_owned();
    purge.append(chroot_path(snapshot).as_str());
    purge.append(
        " apt-get remove --purge $(dpkg --get-selections | awk '{print $1}') --allow-remove-essential -y",
    );
    r.push(purge);
    r
}

/// The command that copies the system configuration of a snapshot into the
/// overlay being prepared.
pub fn system_config(snapshot: &str, tmp: &str) -> (r: Vec<String>)
    ensures
        r@.len() == 5,
        r@[0]@ == "cp"@,
        r@[1]@ == "-r"@,
        r@[2]@ == "--reflink=auto"@,
        r@[3]@ == snapshot_path_spec(snapshot@) + "/etc"@,
        r@[4]@ == chroot_path_spec(tmp@) + "/etc"@,
{
    let mut r: Vec<String> = Vec::new();
    r.push(("cp").to_owned());
    r.push(("-r").to_owned());
    r.push(("--reflink=auto").to_owned());
    let mut src = snapshot_path(snapshot);
    src.append("/etc");
    r.push(src);
    let mut dst = chroot_path(tmp);
    dst.append("/etc");
    r.push(dst);
    r
}

/// The package-database query for one package.
pub fn pkg_query(pkg: &str) -> (r: Vec<String>)
    ensures
        r@.len() == 3,
        r@[0]@ == "apt-cache"@,
        r@[1]@ == "show"@,
        r@[2]@ == pkg@,
{
    let mut r: Vec<String> = Vec::new();
    r.push(("apt-cache").to_owned());
    r.push(("show").to_owned());
    r.push(pkg.to_owned());
    r
}

/// The key-import invocation for one missing signing key.
pub fn gpg_recv_cmd(key: &str) -> (r: Vec<String>)
    ensures
        r@.len() == 5,
        r@[0]@ == "gpg"@,
        r@[1]@ == "--keyserver"@,
        r@[2]@ == "hkp://keyserver.ubuntu.com:80"@,
        r@[3]@ == "--recv-keys"@,
        r@[4]@ == key@,
{
    let mut r: Vec<String> = Vec::new();
    r.push(("gpg").to_owned());
    r.push(("--keyserver").to_owned());
    r.push(("hkp://keyserver.ubuntu.com:80").to_owned());
    r.push(("--recv-keys").to_owned());
    r.push(key.to_owned());
    r
}

/// The shell line exporting an imported key into the repository keyring.
pub fn gpg_export_line(key: &str, repo: &str) -> (r: String)
    ensures
        r@ == "gpg --export "@ + key@ + " | tee /usr/share/keyrings/"@ + repo@ + ".gpg"@,
{
    let mut r = ("gpg --export ").to_owned();
    r.append(key);
    r.append(" | tee /usr/share/keyrings/");
    r.append(repo);
    r.append(".gpg");
    r
}

/// How a finished external command is surfaced: success is `Ok`, a
/// non-zero exit is an operation failure naming the operation and package.
pub fn command_result(op: OpKind, pkg: Option<&str>, exit_ok: bool) -> (r: Result<(), AshError>)
    ensures
        r is Ok <==> exit_ok,
        !exit_ok ==> match r {
            Err(AshError::OperationFailed { op: o, pkg: p }) => o == op && p.deep_view()
                == pkg.deep_view(),
            _ => false,
        },
{
    if exit_ok {
        Ok(())
    } else {
        match pkg {
            Some(p) => Err(AshError::OperationFailed { op, pkg: Some(p.to_owned()) }),
            None => Err(AshError::OperationFailed { op, pkg: None }),
        }
    }
}

/// Whether `p` occurs in `s` as a contiguous substring.
pub open spec fn has_sub(s: Seq<char>, p: Seq<char>) -> bool {
    exists|k: int| 0 <= k && k + p.len() <= s.len() && #[trigger] s.subrange(k, k + p.len()) == p
}

/// Substring search by scanning every window.
pub fn contains_sub(s: &str, pat: &str) -> (r: bool)
    ensures
        r == has_sub(s@, pat@),
{
    let n = s.unicode_len();
    let m = pat.unicode_len();
    if m > n {
        return false;
    }
    if m == 0 {
        proof {
            assert(s@.subrange(0, 0 + pat@.len() as int) =~= pat@);
        }
        return true;
    }
    let end = n - m + 1;
    let mut k: usize = 0;
    while k < end
        invariant
            1 <= m <= n,
            n == s@.len(),
            m == pat@.len(),
            end == n - m + 1,
            k <= end,
            forall|j: int| 0 <= j < k ==> #[trigger] s@.subrange(j, j + pat@.len()) != pat@,
        decreases end - k,
    {
        let w = s.substring_char(k, k + m);
        if order::str_eq(w, pat) {
            proof {
                assert(s@.subrange(k as int, k + pat@.len()) == pat@);
            }
            return true;
        }
        k = k + 1;
    }
    false
}

/// The marker the package manager prints for an unresolved signing key.
pub open spec fn pubkey_marker() -> Seq<char> {
    "NO_PUBKEY"@
}

/// The key identifier on a marker line: its last space-separated token.
pub open spec fn key_of_line(line: Seq<char>) -> Seq<char> {
    codec::split(line, ' ').last()
}

/// The repository on a marker line: the token before the key, with a
/// placeholder when the line has only one token.
pub open spec fn repo_of_line(line: Seq<char>) -> Seq<char> {
    let toks = codec::split(line, ' ');
    if toks.len() >= 2 {
        toks[toks.len() - 2]
    } else {
        "Unknown repository"@
    }
}

/// Key and repository of every line that carries the missing-key marker,
/// in line order.
pub open spec fn missing_keys_of(lines: Seq<Seq<char>>) -> Seq<(Seq<char>, Seq<char>)>
    decreases lines.len(),
{
    if lines.len() == 0 {
        Seq::<(Seq<char>, Seq<char>)>::empty()
    } else {
        let rest = missing_keys_of(lines.drop_last());
        if has_sub(lines.last(), pubkey_marker()) {
            rest.push((key_of_line(lines.last()), repo_of_line(lines.last())))
        } else {
            rest
        }
    }
}

/// Extract the unresolved signing keys and their repositories from the
/// package manager's update output, for import before the retry.
pub fn missing_gpg_keys(output: &str) -> (r: Vec<(String, String)>)
    ensures
        r.deep_view() == missing_keys_of(codec::split(output@, '\n')),
{
    let lines = codec::split_str(output, '\n');
    let ghost ldv = lines.deep_view();
    let mut r: Vec<(String, String)> = Vec::new();
    let mut i: usize = 0;
    proof {
        assert(ldv.take(0) =~= Seq::<Seq<char>>::empty());
        assert(r.deep_view() =~= missing_keys_of(ldv.take(0)));
    }
    while i < lines.len()
        invariant
            i <= lines.len(),
            ldv == lines.deep_view(),
            ldv.len() == lines@.len(),
            r.deep_view() == missing_keys_of(ldv.take(i as int)),
        decreases lines.len() - i,
    {
        let ghost pre = r.deep_view();
        proof {
            assert(lines@[i as int]@ == ldv[i as int]);
            assert(ldv.take(i + 1).drop_last() =~= ldv.take(i as int));
            assert(ldv.take(i + 1).last() == ldv[i as int]);
        }
        if contains_sub(lines[i].as_str(), "NO_PUBKEY") {
            let toks = codec::split_str(lines[i].as_str(), ' ');
            let key = toks[toks.len() - 1].clone();
            let repo = if toks.len() >= 2 {
                toks[toks.len() - 2].clone()
            } else {
                ("Unknown repository").to_owned()
            };
            proof {
                let tdv = codec::split(ldv[i as int], ' ');
                assert(toks@[toks@.len() - 1]@ == tdv.last());
                assert(key@ == key_of_line(ldv[i as int]));
                if tdv.len() >= 2 {
                    assert(toks@[toks@.len() - 2]@ == tdv[tdv.len() - 2]);
                }
                assert(repo@ == repo_of_line(ldv[i as int]));
            }
            r.push((key, repo));
            proof {
                assert(r.deep_view() =~= pre.push(
                    (key_of_line(ldv[i as int]), repo_of_line(ldv[i as int])),
                ));
            }
        }
        i = i + 1;
    }
    proof {
        assert(ldv.take(ldv.len() as int) =~= ldv);
    }
    r
}

} // verus!
