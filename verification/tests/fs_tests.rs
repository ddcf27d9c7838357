use kernel::fs::{init, FileSystem};

fn names(fs: &mut FileSystem) -> Vec<(String, bool)> {
    fs.ls()
}

#[test]
fn new_file_system_is_at_root() {
    let fs = FileSystem::new();
    assert_eq!(fs.pwd(), "/");
    assert!(fs.current_path.is_empty());
}

#[test]
fn mkdir_then_ls_lists_directory() {
    let mut fs = FileSystem::new();
    assert_eq!(fs.mkdir("docs"), Ok(()));
    assert_eq!(names(&mut fs), vec![(String::from("docs"), true)]);
}

#[test]
fn mkdir_existing_name_fails() {
    let mut fs = FileSystem::new();
    fs.mkdir("docs").unwrap();
    assert_eq!(fs.mkdir("docs"), Err("Item ja existe"));
    fs.touch("notes", b"x").unwrap();
    assert_eq!(fs.mkdir("notes"), Err("Item ja existe"));
    assert_eq!(names(&mut fs).len(), 2);
}

#[test]
fn touch_then_cat_gives_content() {
    let mut fs = FileSystem::new();
    assert_eq!(fs.touch("a.txt", b"hello"), Ok(()));
    assert_eq!(fs.cat("a.txt"), Ok(b"hello".to_vec()));
}

#[test]
fn touch_again_replaces_content() {
    let mut fs = FileSystem::new();
    fs.touch("a.txt", b"one").unwrap();
    fs.touch("a.txt", b"two").unwrap();
    assert_eq!(fs.cat("a.txt"), Ok(b"two".to_vec()));
    assert_eq!(names(&mut fs), vec![(String::from("a.txt"), false)]);
}

#[test]
fn touch_on_directory_fails() {
    let mut fs = FileSystem::new();
    fs.mkdir("d").unwrap();
    assert_eq!(fs.touch("d", b"x"), Err("Diretorio com mesmo nome ja existe"));
}

#[test]
fn cat_errors() {
    let mut fs = FileSystem::new();
    fs.mkdir("d").unwrap();
    assert_eq!(fs.cat("d"), Err("Nao e um arquivo"));
    assert_eq!(fs.cat("missing"), Err("Arquivo nao encontrado"));
}

#[test]
fn cd_and_pwd() {
    let mut fs = FileSystem::new();
    fs.mkdir("a").unwrap();
    fs.cd("a").unwrap();
    fs.mkdir("b").unwrap();
    fs.cd("b").unwrap();
    assert_eq!(fs.pwd(), "/a/b");
    assert_eq!(fs.cd(".."), Ok(()));
    assert_eq!(fs.pwd(), "/a");
    assert_eq!(fs.cd("."), Ok(()));
    assert_eq!(fs.pwd(), "/a");
    assert_eq!(fs.cd("/a/./b/../b//"), Ok(()));
    assert_eq!(fs.pwd(), "/a/b");
    assert_eq!(fs.cd("/"), Ok(()));
    assert_eq!(fs.pwd(), "/");
}

#[test]
fn cd_up_at_root_stays() {
    let mut fs = FileSystem::new();
    assert_eq!(fs.cd(".."), Ok(()));
    assert_eq!(fs.pwd(), "/");
    assert_eq!(fs.cd("../.."), Ok(()));
    assert_eq!(fs.pwd(), "/");
}

#[test]
fn cd_missing_fails_and_stays() {
    let mut fs = FileSystem::new();
    fs.mkdir("a").unwrap();
    fs.cd("a").unwrap();
    assert_eq!(fs.cd("nope"), Err("Diretorio nao encontrado"));
    assert_eq!(fs.pwd(), "/a");
}

#[test]
fn cd_into_file_fails() {
    let mut fs = FileSystem::new();
    fs.touch("f", b"").unwrap();
    assert_eq!(fs.cd("f"), Err("Diretorio nao encontrado"));
}

#[test]
fn mv_renames_and_moves_last() {
    let mut fs = FileSystem::new();
    fs.mkdir("a").unwrap();
    fs.touch("b", b"bee").unwrap();
    fs.mkdir("c").unwrap();
    assert_eq!(fs.mv("a", "z"), Ok(()));
    assert_eq!(
        names(&mut fs),
        vec![(String::from("b"), false), (String::from("c"), true), (String::from("z"), true)]
    );
    assert_eq!(fs.mv("b", "bb"), Ok(()));
    assert_eq!(fs.cat("bb"), Ok(b"bee".to_vec()));
}

#[test]
fn mv_errors() {
    let mut fs = FileSystem::new();
    fs.mkdir("a").unwrap();
    fs.mkdir("b").unwrap();
    assert_eq!(fs.mv("x", "y"), Err("Origem nao encontrada"));
    assert_eq!(fs.mv("a", "b/a"), Err("Mover para outros caminhos nao implementado"));
    assert_eq!(names(&mut fs), vec![(String::from("a"), true), (String::from("b"), true)]);
}

#[test]
fn invalid_current_directory() {
    let mut fs = FileSystem::new();
    fs.current_path.push(String::from("gone"));
    assert_eq!(fs.mkdir("a"), Err("Diretorio atual invalido"));
    assert_eq!(fs.touch("a", b""), Err("Diretorio atual invalido"));
    assert_eq!(fs.cat("a"), Err("Diretorio atual invalido"));
    assert_eq!(fs.mv("a", "b"), Err("Diretorio atual invalido"));
    assert!(fs.ls().is_empty());
    assert_eq!(fs.pwd(), "/gone");
}

#[test]
fn init_builds_initial_tree() {
    let mut fs = FileSystem::new();
    init(&mut fs);
    assert_eq!(fs.pwd(), "/");
    assert_eq!(names(&mut fs), vec![(String::from("usr"), true), (String::from("home"), true)]);
    fs.cd("usr").unwrap();
    assert_eq!(fs.cat("readme.txt"), Ok(b"Bem vindo ao sistema de arquivos do Rust OS!".to_vec()));
}

#[test]
fn mkdir_then_cd_enters_new_directory() {
    let mut fs = FileSystem::new();
    fs.mkdir("x").unwrap();
    assert_eq!(fs.cd("x"), Ok(()));
    assert_eq!(fs.pwd(), "/x");
    assert!(fs.ls().is_empty());
}

#[test]
fn cd_down_then_up_returns() {
    let mut fs = FileSystem::new();
    fs.mkdir("x").unwrap();
    fs.cd("x").unwrap();
    fs.cd("..").unwrap();
    assert_eq!(fs.pwd(), "/");
}
