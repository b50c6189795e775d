use git_future::repo::Repo;
use git_future::traits::{AllGenerics, Noop};

#[test]
fn repo_is_send() {
    fn _foo<T: Send>(_val: T) {}
    fn _bar<G>(repo: Repo<G>)
    where
        G: AllGenerics,
        G::Directory: Send,
    {
        _foo(repo);
    }
}

#[test]
fn repo_is_sync() {
    fn _foo<T: Sync>(_val: T) {}
    fn _bar<G: AllGenerics>(repo: Repo<G>)
    where
        G::Directory: Sync,
    {
        _foo(repo);
    }
}

#[test]
fn repo_keeps_its_directory() {
    let repo: Repo<Noop> = Repo::new(Noop(()));
    assert_eq!(repo.git_dir, Noop(()));
}
