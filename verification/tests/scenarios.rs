use bench_average::{average, read_csv, summarize, write_csv, Column, LogError, Output};

const HEADER_LINE: &str =
    "description,score,gpu_temp,gpu_core_clock,gpu_mem_clock,gpu_vram_used,gpu_power\n";

fn log(lines: &[&str]) -> Vec<Option<String>> {
    lines.iter().map(|line| Some(line.to_string())).collect()
}

fn summary(description: &str, score: &str, lines: &[&str]) -> Result<Output, LogError> {
    summarize(&description.to_string(), &score.to_string(), &log(lines))
}

/// One run of the pipeline against a results file held in memory: the file
/// is touched only after the summary exists.
fn run(file: &mut Vec<u8>, description: &str, score: &str, lines: &[&str]) -> Result<(), LogError> {
    let output = summary(description, score, lines)?;
    let bytes = write_csv(&output, file.is_empty())?;
    file.extend_from_slice(&bytes);
    Ok(())
}

const TWO_ROWS: [&str; 5] = [
    "os,cpu,gpu,ram,kernel,driver",
    "Linux,Ryzen,Radeon,32,6.1,mesa",
    "gpu_temp,gpu_core_clock,gpu_mem_clock,gpu_vram_used,gpu_power",
    "60,1500,7000,2000,150",
    "80,1700,7200,2200,170",
];

#[test]
fn two_rows_average_to_their_means() {
    let output = summary("run1", "9000", &TWO_ROWS).unwrap();
    assert_eq!(
        output,
        Output {
            description: "run1".to_string(),
            score: "9000".to_string(),
            gpu_temp: "70".to_string(),
            gpu_core_clock: "1600".to_string(),
            gpu_mem_clock: "7100".to_string(),
            gpu_vram_used: "2100".to_string(),
            gpu_power: "160".to_string(),
        }
    );
    let row = write_csv(&output, false).unwrap();
    assert_eq!(String::from_utf8(row).unwrap(), "run1,9000,70,1600,7100,2100,160\n");
}

#[test]
fn first_run_writes_header_and_row() {
    let mut file = Vec::new();
    run(&mut file, "run1", "9000", &TWO_ROWS).unwrap();
    assert_eq!(
        String::from_utf8(file).unwrap(),
        format!("{HEADER_LINE}run1,9000,70,1600,7100,2100,160\n")
    );
}

#[test]
fn non_numeric_power_is_reported_and_nothing_is_written() {
    let lines = [
        "banner",
        "banner",
        "gpu_temp,gpu_core_clock,gpu_mem_clock,gpu_vram_used,gpu_power",
        "60,1500,7000,2000,150",
        "80,1700,7200,2200,N/A",
    ];
    let mut file = b"description,score\nold,1\n".to_vec();
    let before = file.clone();
    let outcome = run(&mut file, "run1", "9000", &lines);
    assert_eq!(
        outcome,
        Err(LogError::NumericParse { field: Column::GpuPower, value: "N/A".to_string() })
    );
    assert_eq!(file, before);
}

#[test]
fn log_of_two_lines_is_empty_input() {
    let lines = ["banner", "more banner"];
    assert_eq!(read_csv(&log(&lines)), Ok(vec![]));
    let mut file = Vec::new();
    assert_eq!(run(&mut file, "run1", "9000", &lines), Err(LogError::EmptyInput));
    assert!(file.is_empty());
}

#[test]
fn log_of_fewer_than_two_lines_is_empty_input() {
    assert_eq!(summary("d", "s", &[]), Err(LogError::EmptyInput));
    assert_eq!(summary("d", "s", &["gpu_temp"]), Err(LogError::EmptyInput));
    assert_eq!(read_csv(&vec![None]), Ok(vec![]));
    assert_eq!(average(&"d".to_string(), &"s".to_string(), &vec![]), Err(LogError::EmptyInput));
}

#[test]
fn header_without_data_rows_is_empty_input() {
    let lines = ["a", "b", "gpu_temp,gpu_core_clock,gpu_mem_clock,gpu_vram_used,gpu_power"];
    assert_eq!(read_csv(&log(&lines)), Ok(vec![]));
    assert_eq!(summary("d", "s", &lines), Err(LogError::EmptyInput));
}

#[test]
fn two_runs_leave_one_header_and_two_rows_in_order() {
    let second = [
        "banner",
        "banner",
        "gpu_temp,gpu_core_clock,gpu_mem_clock,gpu_vram_used,gpu_power",
        "50,1000,5000,1000,100.5",
    ];
    let mut file = Vec::new();
    run(&mut file, "run1", "9000", &TWO_ROWS).unwrap();
    run(&mut file, "run2", "8000", &second).unwrap();
    assert_eq!(
        String::from_utf8(file).unwrap(),
        format!(
            "{HEADER_LINE}run1,9000,70,1600,7100,2100,160\nrun2,8000,50,1000,5000,1000,100.5\n"
        )
    );
}

#[test]
fn many_runs_leave_one_header() {
    let mut file = Vec::new();
    for i in 0..5 {
        run(&mut file, &format!("run{i}"), "1", &TWO_ROWS).unwrap();
    }
    let text = String::from_utf8(file).unwrap();
    let lines: Vec<&str> = text.lines().collect();
    assert_eq!(lines.len(), 6);
    assert_eq!(format!("{}\n", lines[0]), HEADER_LINE);
    assert_eq!(lines.iter().filter(|line| line.starts_with("description,")).count(), 1);
    for (i, line) in lines[1..].iter().enumerate() {
        assert_eq!(*line, format!("run{i},1,70,1600,7100,2100,160"));
    }
}

#[test]
fn telemetry_among_other_columns_is_found_by_name() {
    let lines = [
        "os,cpu,gpu,ram,kernel,driver,cpuscheduler",
        "Arch,Ryzen 7,RX 6800,32,6.6,mesa,performance",
        "fps,frametime,cpu_load,gpu_load,cpu_temp,gpu_temp,gpu_core_clock,gpu_mem_clock,gpu_vram_used,gpu_power,ram_used,elapsed",
        "143.5,6.96,41,97,61,64,2394,1988,5.25,201,9.1,1000",
        "140.1,7.13,43,99,62,66,2400,1990,5.75,205,9.2,2000",
    ];
    let output = summary("native", "141.8", &lines).unwrap();
    assert_eq!(output.gpu_temp, "65");
    assert_eq!(output.gpu_core_clock, "2397");
    assert_eq!(output.gpu_mem_clock, "1989");
    assert_eq!(output.gpu_vram_used, "5.5");
    assert_eq!(output.gpu_power, "203");
    assert_eq!(output.description, "native");
    assert_eq!(output.score, "141.8");
}

#[test]
fn unreadable_log_is_not_averaged() {
    let lines = ["a", "b", "gpu_temp,gpu_core_clock", "x,y"];
    assert_eq!(summary("d", "s", &lines), Err(LogError::Parse));
    let ragged = [
        "a",
        "b",
        "gpu_temp,gpu_core_clock,gpu_mem_clock,gpu_vram_used,gpu_power",
        "N/A,1,1,1,1",
        "1,1,1,1",
    ];
    assert_eq!(summary("d", "s", &ragged), Err(LogError::Parse));
}
