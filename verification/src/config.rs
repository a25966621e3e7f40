//! Which repositories and packages statistics are collected for.

use vstd::prelude::*;

verus! {

/// One source of download statistics.
#[derive(Debug)]
pub enum CollectionSource {
    /// The releases of a hosted repository.
    Github { owner: String, repo: String },
    /// A package of the registry.
    Crates { name: String },
}

/// The sources to collect from, in the order in which they are configured.
#[derive(Debug)]
pub struct Config {
    pub source: Vec<CollectionSource>,
}

/// The owner and repository of each repository among `sources`, in order.
pub open spec fn github_pairs(sources: Seq<CollectionSource>) -> Seq<(Seq<char>, Seq<char>)>
    decreases sources.len(),
{
    if sources.len() == 0 {
        Seq::empty()
    } else {
        let before = github_pairs(sources.drop_last());
        match sources.last() {
            CollectionSource::Github { owner, repo } => before.push((owner@, repo@)),
            CollectionSource::Crates { .. } => before,
        }
    }
}

/// The name of each package among `sources`, in order.
pub open spec fn crates_names(sources: Seq<CollectionSource>) -> Seq<Seq<char>>
    decreases sources.len(),
{
    if sources.len() == 0 {
        Seq::empty()
    } else {
        let before = crates_names(sources.drop_last());
        match sources.last() {
            CollectionSource::Github { .. } => before,
            CollectionSource::Crates { name } => before.push(name@),
        }
    }
}

/// The texts of a list of pairs of texts.
pub open spec fn pair_texts(pairs: Seq<(&str, &str)>) -> Seq<(Seq<char>, Seq<char>)> {
    Seq::new(pairs.len(), |j: int| (pairs[j].0@, pairs[j].1@))
}

/// The texts of a list of texts.
pub open spec fn name_texts(names: Seq<&str>) -> Seq<Seq<char>> {
    Seq::new(names.len(), |j: int| names[j]@)
}

impl Config {
    /// Owner and repository of every configured repository, in order.
    pub fn github_sources(&self) -> (pairs: Vec<(&str, &str)>)
        ensures
            pair_texts(pairs@) == github_pairs(self.source@),
    {
        let mut pairs: Vec<(&str, &str)> = Vec::new();
        let mut i: usize = 0;
        assert(self.source@.take(0) =~= Seq::empty());
        while i < self.source.len()
            invariant
                i <= self.source.len(),
                pair_texts(pairs@) == github_pairs(self.source@.take(i as int)),
            decreases self.source.len() - i,
        {
            assert(self.source@.take(i + 1).drop_last() =~= self.source@.take(i as int));
            match &self.source[i] {
                CollectionSource::Github { owner, repo } => {
                    pairs.push((owner.as_str(), repo.as_str()));
                },
                CollectionSource::Crates { .. } => {},
            }
            assert(pair_texts(pairs@) =~= github_pairs(self.source@.take(i + 1)));
            i += 1;
        }
        assert(self.source@.take(i as int) =~= self.source@);
        pairs
    }

    /// The name of every configured package, in order.
    pub fn crates_sources(&self) -> (names: Vec<&str>)
        ensures
            name_texts(names@) == crates_names(self.source@),
    {
        let mut names: Vec<&str> = Vec::new();
        let mut i: usize = 0;
        assert(self.source@.take(0) =~= Seq::empty());
        while i < self.source.len()
            invariant
                i <= self.source.len(),
                name_texts(names@) == crates_names(self.source@.take(i as int)),
            decreases self.source.len() - i,
        {
            assert(self.source@.take(i + 1).drop_last() =~= self.source@.take(i as int));
            match &self.source[i] {
                CollectionSource::Github { .. } => {},
                CollectionSource::Crates { name } => {
                    names.push(name.as_str());
                },
            }
            assert(name_texts(names@) =~= crates_names(self.source@.take(i + 1)));
            i += 1;
        }
        assert(self.source@.take(i as int) =~= self.source@);
        names
    }
}

impl Default for Config {
    /// The repository `nextest-rs/nextest` and the package `cargo-nextest`.
    fn default() -> (config: Config)
        ensures
            github_pairs(config.source@) == seq![("nextest-rs"@, "nextest"@)],
            crates_names(config.source@) == seq!["cargo-nextest"@],
            config.source.len() == 2,
    {
        let mut source: Vec<CollectionSource> = Vec::new();
        source.push(
            CollectionSource::Github {
                owner: String::from_str("nextest-rs"),
                repo: String::from_str("nextest"),
            },
        );
        source.push(CollectionSource::Crates { name: String::from_str("cargo-nextest") });
        proof {
            let all = source@;
            let first = all.drop_last();
            let none = first.drop_last();
            assert(none.len() == 0);
            assert(github_pairs(none) =~= Seq::<(Seq<char>, Seq<char>)>::empty());
            assert(crates_names(none) =~= Seq::<Seq<char>>::empty());
            assert(first.last() == all[0]);
            assert(all.last() == all[1]);
            assert(github_pairs(first) =~= seq![("nextest-rs"@, "nextest"@)]);
            assert(crates_names(first) =~= Seq::<Seq<char>>::empty());
            assert(github_pairs(all) =~= seq![("nextest-rs"@, "nextest"@)]);
            assert(crates_names(all) =~= seq!["cargo-nextest"@]);
        }
        Config { source }
    }
}

} // verus!
