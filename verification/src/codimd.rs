//! The pages of a CodiMD server, as its page list describes them.
use vstd::prelude::*;
use crate::text::contains;

verus! {

/// One page as the server's page list gives it.
#[derive(Debug)]
pub struct Info {
    pub url: String,
    pub shortid: String,
    pub content: String,
    pub title: String,
    pub c_time: String,
    pub u_time: String,
}

/// A page that was downloaded: its address, its title and the folder written to.
#[derive(Debug, Clone)]
pub struct CodiMD {
    pub url: String,
    pub title: String,
    pub path: String,
}

impl Default for CodiMD {
    fn default() -> (r: Self)
        ensures
            r.url@ == Seq::<char>::empty(),
            r.title@ == Seq::<char>::empty(),
            r.path@ == Seq::<char>::empty(),
    {
        CodiMD { url: String::new(), title: String::new(), path: String::new() }
    }
}

/// The last of the first `n` pages that satisfies `f`.
pub open spec fn last_info(infos: Seq<Info>, n: int, f: spec_fn(Info) -> bool) -> Option<int>
    decreases n,
{
    if n <= 0 || n > infos.len() {
        None
    } else if f(infos[n - 1]) {
        Some(n - 1)
    } else {
        last_info(infos, n - 1, f)
    }
}

/// The last page whose address occurs in `url`.
pub open spec fn last_page_in(infos: Seq<Info>, url: Seq<char>) -> Option<int> {
    last_info(infos, infos.len() as int, |i: Info| contains(url, i.url@))
}

/// The last page of the first `n` that satisfies `f` does, and none after it does.
pub proof fn lemma_last_info(infos: Seq<Info>, n: int, f: spec_fn(Info) -> bool)
    requires
        0 <= n <= infos.len(),
    ensures
        last_info(infos, n, f) matches Some(k) ==> 0 <= k < n && f(infos[k]) && forall|j: int|
            k < j < n ==> !f(#[trigger] infos[j]),
        last_info(infos, n, f) is None ==> forall|j: int| 0 <= j < n ==> !f(#[trigger] infos[j]),
    decreases n,
{
    if n > 0 && !f(infos[n - 1]) {
        lemma_last_info(infos, n - 1, f);
    }
}

impl CodiMD {
    /// The page that `tmp_url` names: the address and title of the last listed page
    /// whose address occurs in `tmp_url`, with `output` as its folder; all three empty
    /// when no listed page's address occurs in it.
    pub fn new(tmp_url: &str, output: &str, infos: &Vec<Info>) -> (r: Self)
        ensures
            match last_page_in(infos@, tmp_url@) {
                Some(k) => r.url@ == infos@[k].url@ && r.title@ == infos@[k].title@ && r.path@
                    == output@,
                None => r.url@ == Seq::<char>::empty() && r.title@ == Seq::<char>::empty()
                    && r.path@ == Seq::<char>::empty(),
            },
    {
        let mut codimd = CodiMD::default();
        let tc = crate::text::to_chars(tmp_url);
        let ghost f = |i: Info| contains(tmp_url@, i.url@);
        let mut k: usize = 0;
        while k < infos.len()
            invariant
                k <= infos@.len(),
                tc@ == tmp_url@,
                f == (|i: Info| contains(tmp_url@, i.url@)),
                match last_info(infos@, k as int, f) {
                    Some(j) => codimd.url@ == infos@[j].url@ && codimd.title@ == infos@[j].title@
                        && codimd.path@ == output@,
                    None => codimd.url@ == Seq::<char>::empty() && codimd.title@ == Seq::<
                        char,
                    >::empty() && codimd.path@ == Seq::<char>::empty(),
                },
            decreases infos@.len() - k,
        {
            let hit = crate::text::contains_str(tc.as_slice(), infos[k].url.as_str());
            assert(hit == f(infos@[k as int]));
            if hit {
                codimd.url = infos[k].url.clone();
                codimd.title = infos[k].title.clone();
                codimd.path = output.to_string();
            }
            k += 1;
        }
        codimd
    }
}

} // verus!
