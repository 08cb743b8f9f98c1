use gitrs::object::blob::Blob;
use gitrs::object::commit::Commit;
use gitrs::object::tree::{Leaf, Tree};
use gitrs::object::Object;
use gitrs::reference::Reference;
use gitrs::repository::Repository;
use gitrs::{checkout, init, log, Error};

#[test]
fn hashes() {
    let data = "test";
    let expected = "a94a8fe5ccb19ba61c4c0873d391e987982fbbd3";
    let hash = Repository::hash(data.as_bytes());
    assert_eq!(hash, expected)
}

#[test]
fn converts_hash_to_path() {
    let hash = "a94a8fe5ccb19ba61c4c0873d391e987982fbbd3";
    let expected = "a9/4a8fe5ccb19ba61c4c0873d391e987982fbbd3";
    let path = Repository::hash_to_path(hash);
    assert_eq!(path, expected)
}

#[test]
fn store_round_trips_objects() {
    let mut repo = Repository::new();
    let obj = Object::Blob(Blob { content: "some blob".as_bytes().to_vec() });
    let hash = repo.write_object(obj);
    let back = repo.read_object(&hash).unwrap();
    assert_eq!(back, Object::Blob(Blob { content: "some blob".as_bytes().to_vec() }));
}

#[test]
fn stores_under_the_envelope_hash() {
    let mut repo = Repository::new();
    let obj = Object::Blob(Blob { content: "some blob".as_bytes().to_vec() });
    let env = obj.serialize();
    let hash = repo.write_object(obj);
    assert_eq!(hash, Repository::hash(&env));
    let path = Repository::hash_to_path(&hash);
    assert_eq!(path[0..2], hash[0..2]);
    assert_eq!(&path[2..3], "/");
    assert_eq!(path[3..], hash[2..]);
}

#[test]
fn stores_deflated_envelopes() {
    let mut repo = Repository::new();
    let obj = Object::Blob(Blob { content: b"some blob".to_vec() });
    let env = obj.serialize();
    let hash = repo.write_object(obj);
    let stored = repo.object_bytes(&hash).unwrap();
    assert_ne!(stored, &env);
    assert_eq!(stored[0], 0x78);
}

#[test]
fn writing_twice_gives_the_same_hash() {
    let mut repo = Repository::new();
    let first = repo.write_object(Object::Blob(Blob { content: b"dup".to_vec() }));
    let second = repo.write_object(Object::Blob(Blob { content: b"dup".to_vec() }));
    assert_eq!(first, second);
    let back = repo.read_object(&first).unwrap();
    assert_eq!(back, Object::Blob(Blob { content: b"dup".to_vec() }));
}

#[test]
fn reads_fail_on_missing_or_corrupt_objects() {
    let mut repo = Repository::new();
    assert_eq!(
        repo.read_object("a94a8fe5ccb19ba61c4c0873d391e987982fbbd3"),
        Err(Error::NotFound)
    );
    repo.insert_object(
        "a94a8fe5ccb19ba61c4c0873d391e987982fbbd3".to_string(),
        vec![1, 2, 3],
    );
    assert_eq!(
        repo.read_object("a94a8fe5ccb19ba61c4c0873d391e987982fbbd3"),
        Err(Error::CorruptObject)
    );
}

#[test]
fn resolves_chains_within_the_hop_limit() {
    let mut repo = Repository::new();
    let hash = "a94a8fe5ccb19ba61c4c0873d391e987982fbbd3";
    repo.insert_ref("HEAD".to_string(), "ref: refs/heads/b0\n".to_string());
    for i in 0..14 {
        repo.insert_ref(
            format!("refs/heads/b{}", i),
            format!("ref: refs/heads/b{}\n", i + 1),
        );
    }
    repo.insert_ref("refs/heads/b14".to_string(), format!("{}\n", hash));
    let got = repo.find_commit(&Reference::Head).unwrap();
    assert_eq!(got, hash);
}

#[test]
fn reports_a_loop_past_the_hop_limit() {
    let mut repo = Repository::new();
    repo.insert_ref("HEAD".to_string(), "ref: refs/heads/spin\n".to_string());
    repo.insert_ref(
        "refs/heads/spin".to_string(),
        "ref: refs/heads/spin\n".to_string(),
    );
    assert_eq!(repo.find_commit(&Reference::Head), Err(Error::RefLoop));
}

#[test]
fn resolution_reports_missing_ref_files() {
    let repo = Repository::new();
    assert_eq!(repo.find_commit(&Reference::Head), Err(Error::NotFound));
}

#[test]
fn set_head_replaces_the_head_file() {
    let mut repo = Repository::new();
    repo.insert_ref("HEAD".to_string(), "ref: refs/heads/master\n".to_string());
    repo.set_head(&Reference::Ref("refs/heads/topic".to_string()));
    assert_eq!(
        repo.ref_contents("HEAD").unwrap(),
        "ref: refs/heads/topic\n"
    );
}

#[test]
fn init_creates_head_and_refuses_nonempty_directories() {
    let entries: Vec<String> = vec![];
    let repo = init(&entries).unwrap();
    assert_eq!(repo.ref_contents("HEAD").unwrap(), "ref: refs/heads/master\n");

    let occupied: Vec<String> = vec![".git".to_string(), "notes.txt".to_string()];
    assert_eq!(init(&occupied).err(), Some(Error::NotEmpty));

    let reinit: Vec<String> = vec![".git".to_string()];
    assert!(init(&reinit).is_ok());
}

#[test]
fn is_empty_tolerates_only_the_git_directory() {
    assert!(Repository::is_empty(&vec![]));
    assert!(Repository::is_empty(&vec![".git".to_string()]));
    assert!(!Repository::is_empty(&vec![".git".to_string(), "src".to_string()]));
}

fn sample_commit_repo() -> (Repository, String, String) {
    let mut repo = Repository::new();
    let blob_hash = repo.write_object(Object::Blob(Blob { content: b"hello\n".to_vec() }));
    let tree_hash = repo.write_object(Object::Tree(Tree {
        leaves: vec![Leaf {
            mode: "100644".to_string(),
            path: "greeting.txt".to_string(),
            hash: blob_hash.clone(),
        }],
    }));
    let root_hash = repo.write_object(Object::Commit(Commit {
        tree: tree_hash.clone(),
        parent: None,
        author: "a <a@example.com> 1 +0000".to_string(),
        committer: "a <a@example.com> 1 +0000".to_string(),
        gpgsig: None,
        message: "first".to_string(),
    }));
    let tip_hash = repo.write_object(Object::Commit(Commit {
        tree: tree_hash,
        parent: Some(root_hash),
        author: "a <a@example.com> 2 +0000".to_string(),
        committer: "a <a@example.com> 2 +0000".to_string(),
        gpgsig: None,
        message: "second".to_string(),
    }));
    repo.insert_ref("HEAD".to_string(), "ref: refs/heads/master\n".to_string());
    repo.insert_ref("refs/heads/master".to_string(), format!("{}\n", tip_hash.clone()));
    (repo, tip_hash, "greeting.txt".to_string())
}

#[test]
fn log_walks_first_parents() {
    let (repo, tip, _) = sample_commit_repo();
    let entries = log(&repo, "HEAD").unwrap();
    assert_eq!(entries.len(), 2);
    assert_eq!(entries[0].0, tip);
    assert_eq!(entries[0].1, "second");
    assert_eq!(entries[1].1, "first");
}

#[test]
fn log_refuses_non_commits() {
    let mut repo = Repository::new();
    let blob_hash = repo.write_object(Object::Blob(Blob { content: b"x".to_vec() }));
    assert_eq!(log(&repo, &blob_hash), Err(Error::NotACommit));
}

#[test]
fn checkout_materializes_the_tree_and_moves_head() {
    let (mut repo, tip, file) = sample_commit_repo();
    let entries: Vec<String> = vec![".git".to_string()];
    let files = checkout(&mut repo, "refs/heads/master", &entries, "work").unwrap();
    assert_eq!(files.len(), 1);
    assert_eq!(files[0].0, format!("work/{}", file));
    assert_eq!(files[0].1, b"hello\n".to_vec());
    assert_eq!(repo.ref_contents("HEAD").unwrap(), "ref: refs/heads/master\n");

    let files_by_hash = checkout(&mut repo, &tip, &entries, "work").unwrap();
    assert_eq!(files_by_hash.len(), 1);
    assert_eq!(repo.ref_contents("HEAD").unwrap(), &format!("{}\n", tip));
}

#[test]
fn checkout_refuses_occupied_directories() {
    let (mut repo, _, _) = sample_commit_repo();
    let entries: Vec<String> = vec!["stuff".to_string()];
    assert_eq!(
        checkout(&mut repo, "HEAD", &entries, "work"),
        Err(Error::NotEmpty)
    );
}

#[test]
fn checkout_walks_nested_trees() {
    let mut repo = Repository::new();
    let blob_hash = repo.write_object(Object::Blob(Blob { content: b"deep".to_vec() }));
    let inner_hash = repo.write_object(Object::Tree(Tree {
        leaves: vec![Leaf {
            mode: "100644".to_string(),
            path: "leaf.txt".to_string(),
            hash: blob_hash,
        }],
    }));
    let outer = Tree {
        leaves: vec![Leaf {
            mode: "40000".to_string(),
            path: "sub".to_string(),
            hash: inner_hash,
        }],
    };
    let files = repo.checkout_tree(&outer, "w").unwrap();
    assert_eq!(files.len(), 1);
    assert_eq!(files[0].0, "w/sub/leaf.txt");
    assert_eq!(files[0].1, b"deep".to_vec());
}
