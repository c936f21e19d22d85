use vstd::prelude::*;

use crate::text::concat3;
use crate::vdf::chars_of;

verus! {

/// Whether `pat` occurs in `s` starting at `i`.
pub open spec fn contains_at(s: Seq<char>, pat: Seq<char>, i: int) -> bool {
    0 <= i && i + pat.len() <= s.len() && s.subrange(i, i + pat.len()) == pat
}

pub open spec fn contains_pat(s: Seq<char>, pat: Seq<char>) -> bool {
    exists|i: int| contains_at(s, pat, i)
}

/// Replace every occurrence of `pat` by `rep`, scanning left to right;
/// a tail shorter than `pat` is kept as it is.
pub open spec fn replace_all(s: Seq<char>, pat: Seq<char>, rep: Seq<char>) -> Seq<char>
    decreases s.len(),
{
    if pat.len() == 0 || s.len() < pat.len() {
        s
    } else if s.subrange(0, pat.len() as int) == pat {
        rep + replace_all(s.skip(pat.len() as int), pat, rep)
    } else {
        seq![s[0]] + replace_all(s.skip(1), pat, rep)
    }
}

/// Whether `p` occurs in `s` at position `i`.
fn starts_at(s: &Vec<char>, p: &Vec<char>, i: usize) -> (r: bool)
    requires
        i <= s@.len(),
    ensures
        r == contains_at(s@, p@, i as int),
{
    let m = p.len();
    if s.len() - i < m {
        return false;
    }
    let mut k: usize = 0;
    while k < m
        invariant
            k <= m == p@.len(),
            i + m <= s@.len(),
            s@.len() <= usize::MAX,
            forall|t: int| 0 <= t < k ==> s@[i + t] == p@[t],
        decreases m - k,
    {
        if s[i + k] != p[k] {
            proof {
                assert(s@.subrange(i as int, i + p@.len()) != p@) by {
                    assert(s@.subrange(i as int, i + p@.len())[k as int] == s@[i + k as int]);
                }
            }
            return false;
        }
        k += 1;
    }
    proof {
        assert(s@.subrange(i as int, i + p@.len()) =~= p@);
    }
    true
}

/// Whether `pat` occurs anywhere in `s`.
fn contains_str(s: &str, pat: &str) -> (r: bool)
    ensures
        r == contains_pat(s@, pat@),
{
    let sc = chars_of(s);
    let pc = chars_of(pat);
    if pc.len() > sc.len() {
        proof {
            assert(forall|i: int| !contains_at(s@, pat@, i));
        }
        return false;
    }
    if pc.len() == 0 {
        proof {
            assert(s@.subrange(0, 0) =~= pat@);
            assert(contains_at(s@, pat@, 0));
        }
        return true;
    }
    let mut i: usize = 0;
    while i <= sc.len() - pc.len()
        invariant
            sc@ == s@,
            pc@ == pat@,
            0 < pc@.len() <= sc@.len(),
            i <= sc@.len() - pc@.len() + 1,
            forall|t: int| 0 <= t < i ==> !contains_at(s@, pat@, t),
        decreases sc@.len() - i,
    {
        if starts_at(&sc, &pc, i) {
            return true;
        }
        i += 1;
    }
    proof {
        assert(forall|t: int| !contains_at(s@, pat@, t));
    }
    false
}

/// Replace every occurrence of `pat` in `s` by `rep`.
fn replace_all_exec(s: &str, pat: &str, rep: &str) -> (r: String)
    requires
        pat@.len() > 0,
    ensures
        r@ == replace_all(s@, pat@, rep@),
{
    let sc = chars_of(s);
    let pc = chars_of(pat);
    let mut out = String::new();
    let mut i: usize = 0;
    proof {
        assert(s@.skip(0) =~= s@);
        assert(Seq::<char>::empty() + replace_all(s@, pat@, rep@) =~= replace_all(s@, pat@, rep@));
    }
    loop
        invariant
            sc@ == s@,
            pc@ == pat@,
            pat@.len() > 0,
            i <= sc@.len(),
            out@ + replace_all(s@.skip(i as int), pat@, rep@) == replace_all(s@, pat@, rep@),
        decreases sc@.len() - i,
    {
        if i >= sc.len() {
            proof {
                assert(s@.skip(i as int) =~= Seq::<char>::empty());
                assert(out@ + Seq::<char>::empty() =~= out@);
            }
            return out;
        }
        let ghost tail = s@.skip(i as int);
        proof {
            assert(tail[0] == s@[i as int]);
            assert(tail.skip(1) =~= s@.skip(i + 1 as int));
            if i + pat@.len() <= s@.len() {
                assert(tail.subrange(0, pat@.len() as int) =~= s@.subrange(
                    i as int,
                    i + pat@.len(),
                ));
                assert(tail.skip(pat@.len() as int) =~= s@.skip(i + pat@.len()));
            }
        }
        if starts_at(&sc, &pc, i) {
            out.append(rep);
            i += pc.len();
            proof {
                assert(out@ + replace_all(s@.skip(i as int), pat@, rep@) =~= replace_all(
                    s@,
                    pat@,
                    rep@,
                ));
            }
        } else {
            let ghost out0 = out@;
            crate::vdf::push_char(&mut out, sc[i]);
            i += 1;
            proof {
                assert(out@ =~= out0 + seq![s@[i - 1 as int]]);
                assert(out@ + replace_all(s@.skip(i as int), pat@, rep@) =~= replace_all(
                    s@,
                    pat@,
                    rep@,
                ));
            }
        }
    }
}

/// Everything the outer layer needs to run an application through the
/// compatibility runtime.
pub struct ProtonCommand {
    pub proton_path: String,
    pub exe_path: String,
    pub compat_data_path: String,
    pub steam_client_path: String,
    pub app_id: String,
    pub launch_options: Option<String>,
}

impl ProtonCommand {
    /// The runtime invocation itself, before launch options apply.
    pub open spec fn base_command(self) -> Seq<char> {
        self.proton_path@ + " waitforexitandrun "@ + self.exe_path@
    }

    /// The full shell command: launch options wrap the invocation by
    /// replacing their placeholder, prefix it otherwise.
    pub open spec fn command_spec(self) -> Seq<char> {
        match self.launch_options {
            None => self.base_command(),
            Some(o) => if contains_pat(o@, "%command%"@) {
                replace_all(o@, "%command%"@, self.base_command())
            } else {
                o@ + " "@ + self.base_command()
            },
        }
    }

    pub fn build_command(&self) -> (r: String)
        ensures
            r@ == self.command_spec(),
    {
        let base = concat3(
            self.proton_path.as_str(),
            " waitforexitandrun ",
            self.exe_path.as_str(),
        );
        match &self.launch_options {
            None => base,
            Some(o) => {
                proof {
                    reveal_strlit("%command%");
                }
                if contains_str(o.as_str(), "%command%") {
                    replace_all_exec(o.as_str(), "%command%", base.as_str())
                } else {
                    concat3(o.as_str(), " ", base.as_str())
                }
            },
        }
    }

    pub fn build_env<'a>(&'a self) -> (r: Vec<(&'a str, &'a str)>)
        ensures
            r@.len() == 3,
            r@[0].0@ == "STEAM_COMPAT_DATA_PATH"@ && r@[0].1@ == self.compat_data_path@,
            r@[1].0@ == "SteamAppId"@ && r@[1].1@ == self.app_id@,
            r@[2].0@ == "SteamGameId"@ && r@[2].1@ == self.app_id@,
    {
        let mut v: Vec<(&'a str, &'a str)> = Vec::new();
        v.push(("STEAM_COMPAT_DATA_PATH", self.compat_data_path.as_str()));
        v.push(("SteamAppId", self.app_id.as_str()));
        v.push(("SteamGameId", self.app_id.as_str()));
        v
    }
}

} // verus!
