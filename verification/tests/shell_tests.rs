use kernel::fs::FileSystem;
use kernel::syscalls::{
    dec_digits, decode_syscall, execute_command, hex_digits, prompt, split_words, Syscall,
};

fn run(fs: &mut FileSystem, line: &str) -> String {
    let out = execute_command(fs, line);
    String::from_utf8(out.text).unwrap()
}

#[test]
fn syscall_numbers() {
    assert!(decode_syscall(0) == Syscall::Write);
    assert!(decode_syscall(1) == Syscall::ReadKey);
    assert!(decode_syscall(2) == Syscall::ClearScreen);
    assert!(decode_syscall(3) == Syscall::PollKey);
    assert!(decode_syscall(4) == Syscall::Unknown);
    assert!(decode_syscall(5) == Syscall::Execute);
    assert!(decode_syscall(6) == Syscall::Prompt);
    assert!(decode_syscall(99) == Syscall::Unknown);
}

#[test]
fn hex_and_decimal_digits() {
    assert_eq!(hex_digits(0), b"0".to_vec());
    assert_eq!(hex_digits(255), b"FF".to_vec());
    assert_eq!(hex_digits(0x1A2B), b"1A2B".to_vec());
    assert_eq!(hex_digits(u64::MAX), b"FFFFFFFFFFFFFFFF".to_vec());
    assert_eq!(dec_digits(0), b"0".to_vec());
    assert_eq!(dec_digits(1234), b"1234".to_vec());
    assert_eq!(dec_digits(u64::MAX), b"18446744073709551615".to_vec());
}

#[test]
fn digits_read_back() {
    for v in [0u64, 1, 9, 10, 15, 16, 255, 65535, 123456789, u64::MAX] {
        let h = String::from_utf8(hex_digits(v)).unwrap();
        assert_eq!(u64::from_str_radix(&h, 16).unwrap(), v);
        let d = String::from_utf8(dec_digits(v)).unwrap();
        assert_eq!(d.parse::<u64>().unwrap(), v);
    }
}

#[test]
fn words_of_line() {
    assert_eq!(split_words("  mkdir   docs \t x\n"), vec!["mkdir", "docs", "x"]);
    assert!(split_words("   ").is_empty());
    assert_eq!(split_words("a\u{3000}b"), vec!["a", "b"]);
    assert_eq!(split_words("ls"), vec!["ls"]);
}

#[test]
fn help_and_unknown() {
    let mut fs = FileSystem::new();
    assert_eq!(run(&mut fs, "help"), "Commands: help, clear, ls, cd, mkdir, touch, cat, mv, pwd\n");
    assert_eq!(run(&mut fs, "frob x"), "Unknown command: frob\n");
    assert_eq!(run(&mut fs, "   "), "");
}

#[test]
fn clear_and_game_flags() {
    let mut fs = FileSystem::new();
    let o = execute_command(&mut fs, "clear");
    assert!(o.clear_screen && !o.start_game && o.text.is_empty());
    let o = execute_command(&mut fs, "backrooms");
    assert!(o.start_game && !o.clear_screen);
}

#[test]
fn file_commands() {
    let mut fs = FileSystem::new();
    assert_eq!(run(&mut fs, "mkdir docs"), "");
    assert_eq!(run(&mut fs, "mkdir docs"), "Error: Item ja existe\n");
    assert_eq!(run(&mut fs, "touch note hello"), "");
    assert_eq!(run(&mut fs, "ls"), "docs/\nnote\n");
    assert_eq!(run(&mut fs, "cat note"), "hello\n");
    assert_eq!(run(&mut fs, "cat docs"), "Error: Nao e um arquivo\n");
    assert_eq!(run(&mut fs, "cat nothing"), "Error: Arquivo nao encontrado\n");
    assert_eq!(run(&mut fs, "mv note memo"), "");
    assert_eq!(run(&mut fs, "ls"), "docs/\nmemo\n");
    assert_eq!(run(&mut fs, "mv memo docs/memo"), "Error: Mover para outros caminhos nao implementado\n");
    assert_eq!(run(&mut fs, "cd docs"), "");
    assert_eq!(run(&mut fs, "pwd"), "/docs\n");
    assert_eq!(run(&mut fs, "cd nowhere"), "Error: Diretorio nao encontrado\n");
    assert_eq!(run(&mut fs, "cd"), "");
    assert_eq!(run(&mut fs, "pwd"), "/\n");
    assert_eq!(run(&mut fs, "touch empty"), "");
    assert_eq!(run(&mut fs, "cat empty"), "\n");
}

#[test]
fn usage_lines() {
    let mut fs = FileSystem::new();
    assert_eq!(run(&mut fs, "mkdir"), "Usage: mkdir <name>\n");
    assert_eq!(run(&mut fs, "touch"), "Usage: touch <name> [content]\n");
    assert_eq!(run(&mut fs, "cat"), "Usage: cat <name>\n");
    assert_eq!(run(&mut fs, "mv a"), "Usage: mv <source> <destination>\n");
}

#[test]
fn cat_binary_file() {
    let mut fs = FileSystem::new();
    fs.touch("bin", &[0xFF, 0xFE]).unwrap();
    assert_eq!(run(&mut fs, "cat bin"), "(binary file)\n");
}

#[test]
fn prompt_shows_directory() {
    let mut fs = FileSystem::new();
    assert_eq!(prompt(&fs), b"nome@os:/$ ".to_vec());
    fs.mkdir("a").unwrap();
    fs.cd("a").unwrap();
    assert_eq!(prompt(&fs), b"nome@os:/a$ ".to_vec());
}

#[test]
fn read_only_commands_keep_file_system() {
    let mut fs = FileSystem::new();
    kernel::fs::init(&mut fs);
    run(&mut fs, "cd usr");
    let listing = |fs: &mut FileSystem| fs.ls();
    let before = listing(&mut fs);
    let before_pwd = fs.pwd();
    for line in ["ls", "pwd", "help", "cat readme.txt", "cat nothing", "clear", "backrooms", "frobnicate x", ""] {
        run(&mut fs, line);
        assert_eq!(listing(&mut fs), before);
        assert_eq!(fs.pwd(), before_pwd);
    }
    assert_eq!(fs.cat("readme.txt").unwrap(), b"Bem vindo ao sistema de arquivos do Rust OS!".to_vec());
}
