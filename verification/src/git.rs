//! The remotes of a repository, as they are taken from what its
//! configuration holds.

use vstd::prelude::*;

verus! {

/// What a repository's configuration gave for one remote: its name, where
/// that is text, and its URL, where the remote could be looked up and has
/// a URL that is text.
#[derive(Debug, PartialEq, Eq)]
pub struct RemoteEntry {
    pub name: Option<String>,
    pub url: Option<String>,
}

/// What a `RemoteEntry` stands for.
pub struct RemoteEntryModel {
    pub name: Option<Seq<char>>,
    pub url: Option<Seq<char>>,
}

impl View for RemoteEntry {
    type V = RemoteEntryModel;

    open spec fn view(&self) -> RemoteEntryModel {
        RemoteEntryModel {
            name: match self.name {
                Some(n) => Some(n@),
                None => None,
            },
            url: match self.url {
                Some(u) => Some(u@),
                None => None,
            },
        }
    }
}

/// What the entries `entries` stand for.
pub open spec fn remote_entries_view(entries: Seq<RemoteEntry>) -> Seq<RemoteEntryModel> {
    Seq::new(entries.len(), |i: int| entries[i]@)
}

/// The remotes among `entries` that have both a name and a URL, as name
/// and URL, in order.
pub open spec fn named_urls(entries: Seq<RemoteEntryModel>) -> Seq<(Seq<char>, Seq<char>)>
    decreases entries.len(),
{
    if entries.len() == 0 {
        Seq::empty()
    } else {
        let before = named_urls(entries.drop_last());
        match (entries.last().name, entries.last().url) {
            (Some(name), Some(url)) => before.push((name, url)),
            _ => before,
        }
    }
}

/// The remotes among `entries` that have both a name and a URL, as name
/// and URL, in order.
pub fn get_remote_urls(entries: &Vec<RemoteEntry>) -> (remotes: Vec<(String, String)>)
    ensures
        crate::scanner::remotes_view(remotes@) == named_urls(remote_entries_view(entries@)),
{
    let ghost all = remote_entries_view(entries@);
    let mut remotes: Vec<(String, String)> = Vec::new();
    let mut i: usize = 0;
    assert(all.take(0) =~= Seq::<RemoteEntryModel>::empty());
    assert(crate::scanner::remotes_view(remotes@) =~= Seq::<(Seq<char>, Seq<char>)>::empty());
    while i < entries.len()
        invariant
            all == remote_entries_view(entries@),
            i <= entries@.len(),
            crate::scanner::remotes_view(remotes@) == named_urls(all.take(i as int)),
        decreases entries@.len() - i,
    {
        let ghost before = remotes@;
        proof {
            assert(all.take(i + 1).drop_last() =~= all.take(i as int));
            assert(all.take(i + 1).last() == all[i as int]);
        }
        match (&entries[i].name, &entries[i].url) {
            (Some(name), Some(url)) => {
                remotes.push((name.clone(), url.clone()));
                assert(crate::scanner::remotes_view(remotes@) =~= crate::scanner::remotes_view(
                    before,
                ).push((name@, url@)));
            },
            _ => {},
        }
        i += 1;
    }
    assert(all.take(i as int) =~= all);
    remotes
}

} // verus!
