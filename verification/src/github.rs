//! The GitHub coordinates of a repository: its owner and its name.

use vstd::prelude::*;

verus! {

/// A repository on GitHub, named `owner/repo`.
#[derive(Clone, Debug, Default)]
pub struct GitHubInfo {
    pub owner: String,
    pub repo: String,
}

/// Whether `s` holds exactly one `/`.
pub open spec fn exactly_one_slash(s: Seq<char>) -> bool {
    exists|k: int|
        0 <= k < s.len() && s[k] == '/' && (forall|j: int|
            0 <= j < s.len() && j != k ==> s[j] != '/')
}

impl GitHubInfo {
    /// Pairs an owner with a repository name.
    pub fn new(owner: String, repo: String) -> (r: Self)
        ensures
            r.owner == owner,
            r.repo == repo,
    {
        Self { owner, repo }
    }

    /// Parses `owner/repo`: accepted exactly when the input holds one `/`,
    /// which then separates the owner from the repository name.
    pub fn parse(s: &str) -> (r: Result<Self, String>)
        ensures
            r is Ok <==> exactly_one_slash(s@),
            r matches Ok(g) ==> {
                &&& g.owner@ + seq!['/'] + g.repo@ == s@
                &&& !g.owner@.contains('/')
                &&& !g.repo@.contains('/')
            },
    {
        let n = s.unicode_len();
        let mut slash: usize = 0;
        let mut count: usize = 0;
        let mut i: usize = 0;
        while i < n
            invariant
                n == s@.len(),
                0 <= i <= n,
                count <= i,
                count == 0 ==> forall|j: int| 0 <= j < i ==> s@[j] != '/',
                count == 1 ==> 0 <= slash < i && s@[slash as int] == '/' && (forall|j: int|
                    0 <= j < i && j != slash ==> s@[j] != '/'),
                count >= 2 ==> !exactly_one_slash(s@),
            decreases n - i,
        {
            if s.get_char(i) == '/' {
                if count == 0 {
                    slash = i;
                } else {
                    proof {
                        if exactly_one_slash(s@) {
                            let k = choose|k: int|
                                0 <= k < s@.len() && s@[k] == '/' && (forall|j: int|
                                    0 <= j < s@.len() && j != k ==> s@[j] != '/');
                            assert(s@[slash as int] == '/');
                            assert(s@[i as int] == '/');
                        }
                    }
                }
                count = count + 1;
            }
            i = i + 1;
        }
        if count != 1 {
            proof {
                if count == 0 && exactly_one_slash(s@) {
                    let k = choose|k: int|
                        0 <= k < s@.len() && s@[k] == '/' && (forall|j: int|
                            0 <= j < s@.len() && j != k ==> s@[j] != '/');
                    assert(s@[k] == '/');
                }
            }
            return Err("invalid github info format, 'owner/repo' required".to_owned());
        }
        let owner = s.substring_char(0, slash).to_owned();
        let repo = s.substring_char(slash + 1, n).to_owned();
        proof {
            assert(owner@ + seq!['/'] + repo@ =~= s@);
            if owner@.contains('/') {
                let j = choose|j: int| 0 <= j < owner@.len() && owner@[j] == '/';
                assert(s@[j] == '/');
            }
            if repo@.contains('/') {
                let j = choose|j: int| 0 <= j < repo@.len() && repo@[j] == '/';
                assert(s@[slash + 1 + j] == '/');
            }
        }
        Ok(Self { owner, repo })
    }
}

} // verus!
