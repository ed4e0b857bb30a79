use uncm::batch::{collect_inputs, entry_action, is_ncm, Ending, EntryAction, Tally};
use uncm::cli::{parse_args, Notice, Options, ParseResult};
use uncm::ncm::{AudioFormat, Headers, Metadata};
use uncm::output::{temporary_name_suffix, Answer, Job, Next, Outcome, Work};
use uncm::report::{format_size, info_line, metadata_lines, warning_line, written_line};

fn words(args: &[&str]) -> Vec<Option<String>> {
    args.iter().map(|a| Some(a.to_string())).collect()
}

fn run(args: &[&str]) -> Options {
    match parse_args(&words(args)) {
        Ok(ParseResult::Run(options)) => options,
        Ok(ParseResult::Exit(_)) => panic!("exit"),
        Err(message) => panic!("{}", message),
    }
}

fn complaint(args: &[&str]) -> String {
    match parse_args(&words(args)) {
        Ok(_) => panic!("accepted"),
        Err(message) => message,
    }
}

fn notice(args: &[&str]) -> Notice {
    match parse_args(&words(args)) {
        Ok(ParseResult::Exit(notice)) => notice,
        _ => panic!("no notice"),
    }
}

#[test]
fn options_and_inputs() {
    let options = run(&["-r", "a", "-o", "out", "--force", "b", "--info"]);
    assert_eq!(options.output, Some(3));
    assert!(options.recursive && options.force && options.info);
    assert_eq!(options.inputs, vec![1, 5]);
    let options = run(&["a"]);
    assert_eq!(options.output, None);
    assert!(!options.recursive && !options.force && !options.info);
    assert_eq!(run(&["--output", "--", "a"]).output, Some(1));
    assert_eq!(run(&["-o", "x", "-o", "y", "a"]).output, Some(3));
    assert_eq!(run(&["--recursive", "-f", ""]).inputs, vec![2]);
}

#[test]
fn separator_ends_options() {
    let options = run(&["a", "--", "-r", "--", "--help"]);
    assert_eq!(options.inputs, vec![0, 2, 3, 4]);
    assert!(!options.recursive);
}

#[test]
fn the_first_argument_that_decides_is_the_one_read() {
    assert_eq!(notice(&["-o", "--bad", "-V", "-h"]), Notice::Version);
    assert_eq!(complaint(&["a", "--bad", "-h"]), "未知选项: --bad");
    let options = run(&["-o", "x", "-o", "-h", "-f", "a", "--", "--info", "-r"]);
    assert_eq!(options.output, Some(3));
    assert_eq!((options.recursive, options.force, options.info), (false, true, false));
    assert_eq!(options.inputs, vec![5, 7, 8]);
}

#[test]
fn notices_come_at_once() {
    assert_eq!(notice(&["-h"]), Notice::Help);
    assert_eq!(notice(&["a", "--help", "--nonsense"]), Notice::Help);
    assert_eq!(notice(&["-V"]), Notice::Version);
    assert_eq!(notice(&["--version"]), Notice::Version);
}

#[test]
fn complaints_about_arguments() {
    assert_eq!(complaint(&[]), "至少需要一个文件或目录");
    assert_eq!(complaint(&["-r"]), "至少需要一个文件或目录");
    assert_eq!(complaint(&["a", "-o"]), "--output 缺少目录参数");
    assert_eq!(complaint(&["--nonsense", "-h"]), "未知选项: --nonsense");
    assert_eq!(complaint(&["-"]), "未知选项: -");
}

#[test]
fn arguments_that_are_no_text_are_inputs() {
    match parse_args(&vec![None, Some("-f".to_string()), None]) {
        Ok(ParseResult::Run(options)) => {
            assert_eq!(options.inputs, vec![0, 2]);
            assert!(options.force);
        }
        _ => panic!("not accepted"),
    }
}

#[test]
fn containers_are_known_by_extension() {
    assert!(is_ncm(Some("ncm")));
    assert!(is_ncm(Some("NcM")));
    assert!(!is_ncm(Some("mp3")));
    assert!(!is_ncm(Some("ncm ")));
    assert!(!is_ncm(None));
}

#[test]
fn entries_are_taken_or_descended_into() {
    assert_eq!(entry_action(true, false, Some("ncm"), false), EntryAction::Take);
    assert_eq!(entry_action(true, false, Some("txt"), true), EntryAction::Ignore);
    assert_eq!(entry_action(false, true, None, true), EntryAction::Descend);
    assert_eq!(entry_action(false, true, Some("ncm"), false), EntryAction::Ignore);
    assert_eq!(entry_action(false, false, Some("ncm"), true), EntryAction::Ignore);
}

#[test]
fn inputs_are_sorted_and_unique() {
    let paths: Vec<Vec<u8>> =
        vec![b"b".to_vec(), b"a/x".to_vec(), b"".to_vec(), b"a".to_vec(), b"a".to_vec(), b"\xff".to_vec()];
    let canonical = vec![
        Some(b"/1".to_vec()),
        Some(b"/2".to_vec()),
        None,
        Some(b"/1".to_vec()),
        Some(b"/3".to_vec()),
        None,
    ];
    assert_eq!(collect_inputs(&paths, &canonical), vec![2, 3, 4, 1, 5]);
    let nothing: Vec<Vec<u8>> = Vec::new();
    assert_eq!(collect_inputs(&nothing, &Vec::new()), Vec::<usize>::new());
}

#[test]
fn inputs_are_ordered_as_std_orders_them() {
    let paths: Vec<Vec<u8>> = (0..300u32)
        .map(|i| (i.wrapping_mul(2654435761) % 1000).to_string().into_bytes())
        .collect();
    let mut expected: Vec<usize> = (0..paths.len()).collect();
    expected.sort_by(|&i, &j| paths[i].cmp(&paths[j]));
    let canonical: Vec<Option<Vec<u8>>> = paths.iter().map(|_| None).collect();
    assert_eq!(collect_inputs(&paths, &canonical), expected);
}

#[test]
fn tallies_and_exit_codes() {
    let mut tally = Tally::new();
    assert_eq!(tally.exit_code(), 0);
    tally.record(Ending::Succeeded);
    tally.record(Ending::Skipped);
    tally.record(Ending::Succeeded);
    assert_eq!(tally.exit_code(), 0);
    tally.record(Ending::Failed);
    assert_eq!(tally.exit_code(), 1);
    assert_eq!(tally.summary_line(), "汇总: 成功 2，跳过 1，失败 1");
}

fn start(options: &[&str], force: bool) -> Job {
    let mut args = options.to_vec();
    if force {
        args.push("-f");
    }
    args.push("song.ncm");
    Job::start(&run(&args))
}

fn advance(job: Job, answer: Answer, expected: Work) -> Job {
    match job.process(answer) {
        Next::Do(job) => {
            assert_eq!(job.work, expected);
            job
        }
        Next::Finished(_) => panic!("finished"),
    }
}

fn ends(job: Job, answer: Answer) -> Outcome {
    match job.process(answer) {
        Next::Do(_) => panic!("not finished"),
        Next::Finished(outcome) => outcome,
    }
}

fn reason(job: Job, answer: Answer) -> String {
    match ends(job, answer) {
        Outcome::Failed(reason) => reason,
        _ => panic!("no failure"),
    }
}

fn looking(force: bool) -> Job {
    let job = advance(start(&[], force), Answer::Done, Work::NameTarget { beside: true });
    advance(job, Answer::Named { is_source: false, has_parent: true }, Work::LookForTarget)
}

fn synced(force: bool) -> Job {
    let job = advance(looking(force), Answer::Exists(false), Work::CreateParent);
    let job = advance(job, Answer::Done, Work::CreateTemporary { attempt: 0 });
    let job = advance(job, Answer::Taken, Work::CreateTemporary { attempt: 1 });
    let job = advance(job, Answer::Done, Work::Decode);
    let job = advance(job, Answer::Count(123), Work::Flush);
    advance(job, Answer::Done, Work::Sync)
}

#[test]
fn a_job_without_force() {
    let job = advance(synced(false), Answer::Done, Work::Link);
    assert_eq!(reason(job, Answer::Taken), "提交时目标文件已被其他进程创建");
    assert_eq!(reason(job, Answer::Failed("e".to_string())), "原子提交目标文件失败: e");
    let job = advance(job, Answer::Done, Work::RemoveTemporary);
    assert_eq!(reason(job, Answer::Failed("e".to_string())), "清理临时文件链接失败: e");
    let job = advance(job, Answer::Done, Work::Measure);
    assert!(matches!(ends(job, Answer::Count(123)), Outcome::Written(123)));
    assert_eq!(reason(job, Answer::Count(122)), "输出长度校验失败：预期 123，实际 122");
    assert!(matches!(ends(looking(false), Answer::Exists(true)), Outcome::Skipped));
}

#[test]
fn a_job_with_force() {
    let job = advance(looking(true), Answer::Exists(true), Work::CreateParent);
    assert_eq!(reason(job, Answer::Failed("e".to_string())), "创建输出目录失败: e");
    let job = advance(synced(true), Answer::Done, Work::LookAgain);
    advance(job, Answer::Exists(false), Work::Rename);
    let job = advance(job, Answer::Exists(true), Work::RemoveTarget);
    assert_eq!(reason(job, Answer::Failed("e".to_string())), "移除旧目标文件失败: e");
    let job = advance(job, Answer::Done, Work::Rename);
    assert_eq!(reason(job, Answer::Failed("e".to_string())), "提交目标文件失败: e");
    advance(job, Answer::Done, Work::Measure);
}

#[test]
fn the_target_stands_where_the_options_say() {
    let job = start(&["-o", "music"], false);
    advance(job, Answer::Done, Work::NameTarget { beside: false });
    let job = start(&["-r"], true);
    assert_eq!((job.force, job.info), (true, false));
    advance(job, Answer::Done, Work::NameTarget { beside: true });
}

#[test]
fn a_job_that_only_looks() {
    let job = start(&["--info"], true);
    assert_eq!(reason(job, Answer::Failed("坏文件".to_string())), "坏文件");
    assert!(matches!(ends(job, Answer::Done), Outcome::Info));
}

#[test]
fn a_job_that_fails_early() {
    let job = advance(start(&[], false), Answer::Done, Work::NameTarget { beside: true });
    assert_eq!(reason(job, Answer::NoName), "源文件没有可用文件名");
    let same = Answer::Named { is_source: true, has_parent: true };
    assert_eq!(reason(job, same), "目标路径与源文件相同");
    let bare = Answer::Named { is_source: false, has_parent: false };
    let job = advance(job, bare, Work::LookForTarget);
    assert_eq!(reason(job, Answer::Exists(false)), "目标路径没有父目录");
    let mut job = advance(looking(false), Answer::Exists(false), Work::CreateParent);
    job = advance(job, Answer::Done, Work::CreateTemporary { attempt: 0 });
    assert_eq!(reason(job, Answer::Failed("e".to_string())), "创建临时文件失败: e");
    for attempt in 1..1000 {
        job = advance(job, Answer::Taken, Work::CreateTemporary { attempt });
    }
    assert_eq!(reason(job, Answer::Taken), "无法分配唯一的临时文件名");
    assert_eq!(temporary_name_suffix(42, 999), ".42.999.part");
}

fn reference_size(bytes: u64) -> String {
    let units = ["B", "KiB", "MiB", "GiB"];
    let mut value = bytes as f64;
    let mut unit = 0;
    while value >= 1024.0 && unit + 1 < units.len() {
        value /= 1024.0;
        unit += 1;
    }
    if unit == 0 {
        format!("{} B", bytes)
    } else {
        format!("{:.2} {}", value, units[unit])
    }
}

#[test]
fn sizes_as_text() {
    assert_eq!(format_size(0), "0 B");
    assert_eq!(format_size(1023), "1023 B");
    assert_eq!(format_size(1024), "1.00 KiB");
    assert_eq!(format_size(1152), "1.12 KiB");
    assert_eq!(format_size(1408), "1.38 KiB");
    assert_eq!(format_size(1048575), "1024.00 KiB");
    assert_eq!(format_size(3 * 1048576 / 2), "1.50 MiB");
    assert_eq!(format_size(1 << 40), "1024.00 GiB");
}

#[test]
fn sizes_are_rounded_as_floating_point_is() {
    for bytes in 0..20_000u64 {
        assert_eq!(format_size(bytes), reference_size(bytes));
    }
    let mut seed = 88172645463325252u64;
    for shift in 0..64 {
        for _ in 0..200 {
            seed ^= seed << 13;
            seed ^= seed >> 7;
            seed ^= seed << 17;
            let bytes = seed >> shift;
            assert_eq!(format_size(bytes), reference_size(bytes));
        }
        for near in [(1u64 << shift).wrapping_sub(1), 1 << shift, (1 << shift) + 1] {
            assert_eq!(format_size(near), reference_size(near));
        }
        let spread = (1u64 << shift) | 1048577;
        assert_eq!(format_size(spread), reference_size(spread));
    }
    assert_eq!(format_size(u64::MAX), reference_size(u64::MAX));
}

fn headers(metadata: Option<Metadata>, metadata_warning: Option<String>) -> Headers {
    Headers {
        metadata,
        metadata_warning,
        cover_bytes: 10,
        audio_bytes: 2048,
        format: AudioFormat::Flac,
    }
}

#[test]
fn lines_about_a_container() {
    let bare = headers(None, Some("坏".to_string()));
    assert_eq!(metadata_lines(&bare), Vec::<String>::new());
    assert_eq!(
        warning_line(&bare).as_deref(),
        Some("    警告: 元数据解析失败，但音频已独立解密: 坏")
    );
    assert_eq!(info_line(&bare), "flac，音频 2.00 KiB，封面 10 B");
    assert_eq!(written_line("x.flac", 2048, &bare), "完成 -> x.flac (2.00 KiB，flac)");
    let full = headers(
        Some(Metadata {
            raw_json: "{}".to_string(),
            title: Some("落华".to_string()),
            album: None,
            format_hint: Some("flac".to_string()),
        }),
        None,
    );
    assert_eq!(metadata_lines(&full), vec!["    标题: 落华", "    格式提示: flac"]);
    assert_eq!(warning_line(&full), None);
}
