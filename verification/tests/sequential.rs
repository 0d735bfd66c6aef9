use monitor_buffer::fib::fib;
use monitor_buffer::life::{copy_block, count_neighbors, evolve, random_block, step};
use monitor_buffer::primes;
use monitor_buffer::primes_u32;
use monitor_buffer::words::{clean_char, contar_palavras, limpar_pontuacao, merge_counts};

#[test]
fn primes_small_cases() {
    assert!(!primes::eh_primo(0));
    assert!(!primes::eh_primo(1));
    assert!(primes::eh_primo(2));
    assert!(primes::eh_primo(3));
    assert!(!primes::eh_primo(4));
    assert!(primes::eh_primo(5));
    assert!(!primes::eh_primo(25));
    assert!(!primes::eh_primo(49));
    assert!(primes::eh_primo(97));
    assert!(!primes::eh_primo(91)); // 7 * 13
    assert!(primes::eh_primo(7919));
}

#[test]
fn primes_u32_matches_usize_version() {
    for n in 0..200u32 {
        assert_eq!(primes_u32::eh_primo(n), primes::eh_primo(n as usize));
    }
}

#[test]
fn first_primes_sequence() {
    assert_eq!(primes::gerar_primos(0), vec![]);
    assert_eq!(primes::gerar_primos(1), vec![2]);
    assert_eq!(
        primes::gerar_primos(10),
        vec![2, 3, 5, 7, 11, 13, 17, 19, 23, 29]
    );
    assert_eq!(
        primes_u32::gerar_primos(10),
        vec![2, 3, 5, 7, 11, 13, 17, 19, 23, 29]
    );
    assert_eq!(primes::gerar_primos(25).last(), Some(&97));
}

#[test]
fn fibonacci_values() {
    assert_eq!(fib(0), 0);
    assert_eq!(fib(1), 1);
    assert_eq!(fib(2), 1);
    assert_eq!(fib(10), 55);
    assert_eq!(fib(30), 832040);
}

#[test]
fn neighbor_counts_on_a_small_grid() {
    let grid: Vec<Vec<u8>> = vec![vec![1, 1, 0], vec![0, 1, 0], vec![0, 0, 0]];
    assert_eq!(count_neighbors(&grid, 0, 0), 2);
    assert_eq!(count_neighbors(&grid, 1, 1), 2);
    assert_eq!(count_neighbors(&grid, 2, 2), 1);
    assert_eq!(count_neighbors(&grid, 0, 2), 2);
}

#[test]
fn blinker_oscillates() {
    let horizontal: Vec<Vec<u8>> = vec![
        vec![0, 0, 0, 0, 0],
        vec![0, 0, 0, 0, 0],
        vec![0, 1, 1, 1, 0],
        vec![0, 0, 0, 0, 0],
        vec![0, 0, 0, 0, 0],
    ];
    let vertical: Vec<Vec<u8>> = vec![
        vec![0, 0, 0, 0, 0],
        vec![0, 0, 1, 0, 0],
        vec![0, 0, 1, 0, 0],
        vec![0, 0, 1, 0, 0],
        vec![0, 0, 0, 0, 0],
    ];
    assert_eq!(step(&horizontal), vertical);
    assert_eq!(step(&vertical), horizontal);
    assert_eq!(evolve(horizontal.clone(), 2), horizontal);
    assert_eq!(evolve(horizontal.clone(), 5), vertical);
}

#[test]
fn random_block_is_well_formed() {
    let block = random_block(8);
    assert_eq!(block.len(), 8);
    for row in &block {
        assert_eq!(row.len(), 8);
        for &cell in row {
            assert!(cell <= 1);
        }
    }
}

#[test]
fn copy_block_writes_one_quadrant() {
    let mut shared: Vec<Vec<u8>> = vec![vec![0; 4]; 4];
    let local: Vec<Vec<u8>> = vec![vec![1, 0], vec![0, 1]];
    copy_block(&mut shared, &local, 1, 0, 2);
    assert_eq!(
        shared,
        vec![
            vec![0, 0, 0, 0],
            vec![0, 0, 0, 0],
            vec![1, 0, 0, 0],
            vec![0, 1, 0, 0],
        ]
    );
}

#[test]
fn cleaning_characters() {
    assert_eq!(clean_char('A'), 'a');
    assert_eq!(clean_char('z'), 'z');
    assert_eq!(clean_char('!'), ' ');
    assert_eq!(clean_char('"'), ' ');
    assert_eq!(clean_char('\''), ' ');
    assert_eq!(clean_char(' '), ' ');
    assert_eq!(clean_char('7'), '7');
}

#[test]
fn cleaning_a_text() {
    let out = limpar_pontuacao("Ola, Mundo! \"abc\" don't");
    assert_eq!(out, "ola  mundo   abc  don t");
}

#[test]
fn counting_words_in_a_chunk() {
    let words: Vec<String> = ["casa", "rio", "casa", "mar", "casa"]
        .iter()
        .map(|s| s.to_string())
        .collect();
    let mut table = contar_palavras(&words);
    table.sort();
    assert_eq!(
        table,
        vec![
            ("casa".to_string(), 3),
            ("mar".to_string(), 1),
            ("rio".to_string(), 1),
        ]
    );
}

#[test]
fn merging_two_tallies() {
    let a: Vec<String> = ["sol", "lua", "sol"].iter().map(|s| s.to_string()).collect();
    let b: Vec<String> = ["lua", "mar"].iter().map(|s| s.to_string()).collect();
    let ta = contar_palavras(&a);
    let tb = contar_palavras(&b);
    let mut merged = merge_counts(ta, &tb);
    merged.sort();
    assert_eq!(
        merged,
        vec![
            ("lua".to_string(), 2),
            ("mar".to_string(), 1),
            ("sol".to_string(), 2),
        ]
    );
}
