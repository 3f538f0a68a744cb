use screeps_os::performance::{
    running_average_step, task_data_uses_first_range, PerfLogB, TaskDataB, TaskLogB,
};

#[test]
fn first_range_until_enough_samples() {
    assert!(task_data_uses_first_range(0, 0, 128, true));
    assert!(task_data_uses_first_range(127, 5, 200, true));
    assert!(task_data_uses_first_range(127, 5, 200, false));
}

#[test]
fn largest_figure_uses_window_with_more_samples() {
    assert!(task_data_uses_first_range(456, 200, 72, true));
    assert!(!task_data_uses_first_range(456, 200, 72, false));
    assert!(!task_data_uses_first_range(456, 72, 200, true));
    assert!(task_data_uses_first_range(456, 72, 200, false));
}

#[test]
fn sample_counter_wraps_and_divides_by_256() {
    assert_eq!(running_average_step(0), (1, 1));
    assert_eq!(running_average_step(127), (128, 128));
    assert_eq!(running_average_step(254), (255, 255));
    assert_eq!(running_average_step(255), (0, 256));
}

#[test]
fn earlier_layouts_can_be_built() {
    let _ = (PerfLogB::new(), TaskDataB::new(), TaskLogB::new());
}
