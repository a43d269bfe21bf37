use bench_average::appender::frame;
use bench_average::{write_csv, Column, Output};

fn summary(description: &str, score: &str) -> Output {
    Output {
        description: description.to_string(),
        score: score.to_string(),
        gpu_temp: "70".to_string(),
        gpu_core_clock: "1600".to_string(),
        gpu_mem_clock: "7100".to_string(),
        gpu_vram_used: "2100.5".to_string(),
        gpu_power: "160".to_string(),
    }
}

fn text(bytes: Vec<u8>) -> String {
    String::from_utf8(bytes).unwrap()
}

#[test]
fn header_goes_before_the_row_of_an_empty_file() {
    assert_eq!(frame(true, &b"h\n".to_vec(), &b"r\n".to_vec()), b"h\nr\n".to_vec());
    assert_eq!(frame(true, &vec![], &b"r\n".to_vec()), b"r\n".to_vec());
    assert_eq!(frame(true, &b"h\n".to_vec(), &vec![]), b"h\n".to_vec());
}

#[test]
fn header_is_left_out_of_a_file_that_holds_something() {
    assert_eq!(frame(false, &b"h\n".to_vec(), &b"r\n".to_vec()), b"r\n".to_vec());
    assert_eq!(frame(false, &b"h\n".to_vec(), &vec![]), Vec::<u8>::new());
}

#[test]
fn empty_file_gets_header_and_row() {
    assert_eq!(
        text(write_csv(&summary("run1", "9000"), true).unwrap()),
        "description,score,gpu_temp,gpu_core_clock,gpu_mem_clock,gpu_vram_used,gpu_power\n\
         run1,9000,70,1600,7100,2100.5,160\n"
    );
}

#[test]
fn file_with_contents_gets_the_row_only() {
    assert_eq!(
        text(write_csv(&summary("run1", "9000"), false).unwrap()),
        "run1,9000,70,1600,7100,2100.5,160\n"
    );
}

#[test]
fn fields_are_quoted_where_csv_needs_it() {
    assert_eq!(
        text(write_csv(&summary("high, ultra", "he said \"9000\""), false).unwrap()),
        "\"high, ultra\",\"he said \"\"9000\"\"\",70,1600,7100,2100.5,160\n"
    );
    assert_eq!(
        text(write_csv(&summary("two\nlines", ""), false).unwrap()),
        "\"two\nlines\",,70,1600,7100,2100.5,160\n"
    );
}

#[test]
fn written_row_reads_back_through_the_reader() {
    let written = summary("high, \"ultra\"", "9000");
    let file = text(write_csv(&written, true).unwrap());
    let mut lines: Vec<Option<String>> = vec![None, None];
    lines.extend(file.lines().map(|line| Some(line.to_string())));
    let read = bench_average::read_csv(&lines).unwrap();
    assert_eq!(read.len(), 1);
    assert_eq!(read[0], Output { description: String::new(), score: String::new(), ..written });
}

#[test]
fn columns_have_their_names() {
    assert_eq!(Column::GpuTemp.title(), "gpu_temp");
    assert_eq!(Column::GpuCoreClock.title(), "gpu_core_clock");
    assert_eq!(Column::GpuMemClock.title(), "gpu_mem_clock");
    assert_eq!(Column::GpuVramUsed.title(), "gpu_vram_used");
    assert_eq!(Column::GpuPower.title(), "gpu_power");
}

#[test]
fn columns_pick_their_field() {
    let record = summary("d", "s");
    assert_eq!(Column::GpuTemp.field(&record), "70");
    assert_eq!(Column::GpuCoreClock.field(&record), "1600");
    assert_eq!(Column::GpuMemClock.field(&record), "7100");
    assert_eq!(Column::GpuVramUsed.field(&record), "2100.5");
    assert_eq!(Column::GpuPower.field(&record), "160");
}

#[test]
fn any_record_is_encoded() {
    let odd = Output {
        description: String::new(),
        score: "\r\n\"".to_string(),
        gpu_temp: String::new(),
        gpu_core_clock: ",".to_string(),
        gpu_mem_clock: "\u{e9}".to_string(),
        gpu_vram_used: " ".to_string(),
        gpu_power: "#".to_string(),
    };
    assert_eq!(text(write_csv(&odd, false).unwrap()), ",\"\r\n\"\"\",,\",\",\u{e9}, ,#\n");
    assert!(write_csv(&odd, true).is_ok());
    let blank = Output {
        description: String::new(),
        score: String::new(),
        gpu_temp: String::new(),
        gpu_core_clock: String::new(),
        gpu_mem_clock: String::new(),
        gpu_vram_used: String::new(),
        gpu_power: String::new(),
    };
    assert_eq!(text(write_csv(&blank, false).unwrap()), ",,,,,,\n");
}
