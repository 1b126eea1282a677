use rmduprs::args::{effective_threads, Args, DEFAULT_BATCH_SIZE, FALLBACK_THREADS};

#[test]
fn test_args_default_threads() {
    let args = Args {
        input: "test.bam".to_string(),
        output: "out.bam".to_string(),
        remove_duplicates: false,
        threads: 4,
        batch_size: 2_000_000,
        tmp_dir: None,
        single_threaded: false,
    };
    assert_eq!(args.input, "test.bam");
    assert_eq!(effective_threads(&args), 4);
}

#[test]
fn test_single_threaded_flag() {
    let args = Args {
        input: "test.bam".to_string(),
        output: "out.bam".to_string(),
        remove_duplicates: false,
        threads: 8,
        batch_size: 2_000_000,
        tmp_dir: None,
        single_threaded: true,
    };
    assert_eq!(effective_threads(&args), 1);
}

#[test]
fn defaults_of_the_options() {
    assert_eq!(DEFAULT_BATCH_SIZE, 2_000_000);
    assert_eq!(FALLBACK_THREADS, 4);
}

#[test]
fn thread_count_is_taken_as_given() {
    let mut args = Args {
        input: String::new(),
        output: String::new(),
        remove_duplicates: true,
        threads: 0,
        batch_size: DEFAULT_BATCH_SIZE,
        tmp_dir: Some(std::path::PathBuf::from("/tmp")),
        single_threaded: false,
    };
    assert_eq!(effective_threads(&args), 0);
    args.threads = usize::MAX;
    assert_eq!(effective_threads(&args), usize::MAX);
    args.single_threaded = true;
    assert_eq!(effective_threads(&args), 1);
}
