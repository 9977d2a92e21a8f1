use rust_sim::naming::{
    analysis_base_name, log_file_name, remove_all_of, time_chart_path, trajectory_chart_path,
    Timestamp, ANALYSIS_DIR, LOG_DIR,
};

fn at(year: i32) -> Timestamp {
    Timestamp { year, month: 1, day: 31, hour: 23, minute: 59, second: 5 }
}

#[test]
fn stamp_pads_each_field() {
    assert_eq!(at(2024).stamp(), "20240131_235905");
    let early = Timestamp { year: 987, month: 7, day: 4, hour: 0, minute: 0, second: 0 };
    assert_eq!(early.stamp(), "09870704_000000");
}

#[test]
fn stamp_signs_years_outside_four_digits() {
    assert_eq!(at(12345).stamp(), "+123450131_235905");
    assert_eq!(at(-1).stamp(), "-00010131_235905");
    assert_eq!(at(i32::MIN).stamp(), "-21474836480131_235905");
}

#[test]
fn log_file_is_named_by_its_start() {
    assert_eq!(log_file_name(&at(2024)), "log/least_squares_log_20240131_235905.txt");
    assert!(log_file_name(&at(2024)).starts_with(LOG_DIR));
}

#[test]
fn base_name_drops_directory_and_extension() {
    assert_eq!(
        analysis_base_name("log/least_squares_log_20240131_235905.txt"),
        "least_squares_log_20240131_235905"
    );
    assert_eq!(analysis_base_name("run.txt.txt"), "run");
    assert_eq!(analysis_base_name("other/path"), "other/path");
}

#[test]
fn removal_reads_from_the_left() {
    assert_eq!(remove_all_of("aaa", "aa"), "a");
    assert_eq!(remove_all_of("", "x"), "");
    assert_eq!(remove_all_of("abc", ""), "abc");
}

#[test]
fn chart_paths() {
    assert_eq!(time_chart_path("run"), "log/analyze/plot_time_run.png");
    assert_eq!(
        trajectory_chart_path("run", 0, 3),
        "log/analyze/plot_trajectory_ball1_3D_run.png"
    );
    assert_eq!(
        trajectory_chart_path("run", 1, 2),
        "log/analyze/plot_trajectory_ball2_2D_run.png"
    );
    assert!(time_chart_path("run").starts_with(ANALYSIS_DIR));
}
