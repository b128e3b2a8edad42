use intcode::alarm;
use intcode::boost;
use intcode::diagnostics;
use intcode::fuel;
use intcode::moons::{self, Moon, Vec3};
use intcode::password;

#[test]
fn fuel_for_known_masses() {
    assert_eq!(fuel::calculate_fuel(12), 2);
    assert_eq!(fuel::calculate_fuel(14), 2);
    assert_eq!(fuel::calculate_fuel(1969), 654);
    assert_eq!(fuel::calculate_fuel(100756), 33583);
    assert_eq!(fuel::calculate_fuel(2), 0);
    assert_eq!(fuel::calculate_fuel(-5), 0);
}

#[test]
fn total_fuel_counts_the_fuel_for_fuel() {
    assert_eq!(fuel::calculate_total_fuel(14), 2);
    assert_eq!(fuel::calculate_total_fuel(1969), 966);
    assert_eq!(fuel::calculate_total_fuel(100756), 50346);
}

#[test]
fn fuel_sums_over_modules() {
    let input = vec![12, 14, 1969];
    assert_eq!(fuel::solve_1(&input), 2 + 2 + 654);
    assert_eq!(fuel::solve_2(&input), 2 + 2 + 966);
}

#[test]
fn alarm_machine_runs_the_classic_program() {
    // scratch cells follow the code so that even the halt stride's
    // operand reads stay on the store
    let mut program = vec![1, 9, 10, 3, 2, 3, 11, 0, 99, 30, 40, 50];
    program.resize(60, 0);
    let mut m = alarm::IntcodeMachine::new(program);
    assert_eq!(m.run(), Ok(3500));

    let mut m2 = alarm::IntcodeMachine::new(vec![1, 0, 0, 0, 99, 0, 0, 0]);
    assert_eq!(m2.run(), Ok(2));

    let mut m3 = alarm::IntcodeMachine::new(vec![2, 3, 0, 3, 99, 0, 0, 0]);
    assert_eq!(m3.run(), Ok(2));
}

#[test]
fn alarm_machine_faults_on_unknown_words() {
    let mut m = alarm::IntcodeMachine::new(vec![98, 0, 0, 0, 99]);
    assert_eq!(m.run(), Err(alarm::AlarmFault::UnknownOpcode));
}

#[test]
fn diagnostics_equal_to_eight() {
    let program = vec![3, 9, 8, 9, 10, 9, 4, 9, 99, -1, 8];
    assert_eq!(diagnostics::run_diagnostic(&program, 8), Ok(vec![1]));
    assert_eq!(diagnostics::run_diagnostic(&program, 5), Ok(vec![0]));
}

#[test]
fn diagnostics_jump_test() {
    // reports 0 for a zero input and 1 otherwise
    let program = vec![3, 12, 6, 12, 15, 1, 13, 14, 13, 4, 13, 99, -1, 0, 1, 9];
    assert_eq!(diagnostics::run_diagnostic(&program, 0), Ok(vec![0]));
    assert_eq!(diagnostics::run_diagnostic(&program, 3), Ok(vec![1]));
}

#[test]
fn boost_echoes_the_test_value() {
    // the machine forwards its phase setting straight to the output
    let program = vec![3, 5, 4, 5, 99, 0];
    assert_eq!(boost::solve_1(&program), Ok(1));
    assert_eq!(boost::solve_2(&program), Ok(2));
}

#[test]
fn password_rules_on_known_values() {
    assert!(password::has_double_repeat(&[1, 1, 1, 1, 1, 1]));
    assert!(!password::has_double_repeat(&[1, 2, 3, 7, 8, 9]));
    assert!(password::has_strict_double_repeat(&[1, 1, 2, 2, 3, 3]));
    assert!(!password::has_strict_double_repeat(&[1, 2, 3, 4, 4, 4]));
    assert!(password::has_strict_double_repeat(&[1, 1, 1, 1, 2, 2]));
}

#[test]
fn password_counts_a_small_range() {
    // between 110 and 130 the normalized sweep starts at 111111;
    // counting over a one-value range exercises the whole sweep
    assert_eq!(password::solve_1((111110, 111112)), 1);
    assert_eq!(password::solve_2((111110, 111112)), 0);
    assert_eq!(password::solve_2((112233, 112234)), 1);
}

#[test]
fn password_input_range() {
    assert_eq!(password::get_input(), (130254, 678275));
}

#[test]
fn moons_energy_after_ten_steps() {
    let moons = moons::parse_input(vec![-1, 0, 2, 2, -10, -7, 4, -8, 8, 3, 5, -1]);
    assert_eq!(moons.len(), 4);
    assert_eq!(moons::solve_1(moons, 10), Ok(179));
}

#[test]
fn moons_axis_period_search() {
    let moons = moons::parse_input(vec![-1, 0, 2, 2, -10, -7, 4, -8, 8, 3, 5, -1]);
    // the halving product of the three axis periods for the known
    // example system
    let v = moons::solve_2(moons).unwrap();
    assert_eq!(v, 18 / 2 * 28 / 2 * 44 / 2);
}

#[test]
fn moon_gravity_pulls_componentwise() {
    let mut a = Moon::new(Vec3 { x: 3, y: -2, z: 5 });
    let b = Moon::new(Vec3 { x: 5, y: -2, z: 1 });
    a.apply_gravity(&b).unwrap();
    assert_eq!(a.velocity, Vec3 { x: 1, y: 0, z: -1 });
    a.step().unwrap();
    assert_eq!(a.position, Vec3 { x: 4, y: -2, z: 4 });
    assert_eq!(a.get_potential_energy(), 10);
    assert_eq!(a.get_kinetic_energy(), 2);
    assert_eq!(a.get_total_energy(), 20);
}

#[test]
fn program_text_parses() {
    let text = b" 1,-2,104, 99\n".to_vec();
    // the inner token " 99" holds a stray space and rejects the text
    assert!(intcode::program::parse_program(&text).is_err());
    let good = b"1,-2,104,99\n".to_vec();
    assert_eq!(
        intcode::program::parse_program(&good),
        Ok(vec![1, -2, 104, 99])
    );
    let lone = b"42".to_vec();
    assert_eq!(intcode::program::parse_program(&lone), Ok(vec![42]));
    let empty_token = b"1,,2".to_vec();
    assert!(intcode::program::parse_program(&empty_token).is_err());
    let too_big = b"9223372036854775808".to_vec();
    assert_eq!(
        intcode::program::parse_program(&too_big),
        Err(intcode::program::LoadFault::ValueOutOfRange)
    );
    let min = b"-9223372036854775808".to_vec();
    assert_eq!(
        intcode::program::parse_program(&min),
        Ok(vec![i64::MIN])
    );
}

#[test]
fn alarm_search_reports_a_faulting_try() {
    // large nouns name cells past this short store, so some try faults
    // before any try hits the sought value
    let program = vec![1, 0, 0, 0, 99, 0, 0, 0];
    assert_eq!(
        alarm::solve_2(&program),
        Err(alarm::AlarmSearchError::Faulted)
    );
}

#[test]
fn diagnostics_report_a_fault() {
    let program = vec![98, 0, 0, 0];
    assert_eq!(
        diagnostics::run_diagnostic(&program, 1),
        Err(intcode::amplifiers::PipelineError::StageFaulted)
    );
}

#[test]
fn moon_coordinate_lines_parse() {
    let text = b"<x=-1, y=0, z=2>\n<x=2, y=-10, z=-7>\n".to_vec();
    assert_eq!(
        moons::parse_moon_text(&text),
        Ok(vec![-1, 0, 2, 2, -10, -7])
    );
    // a line of another shape is passed over
    let mixed = b"comet\n<x=3, y=4, z=5>".to_vec();
    assert_eq!(moons::parse_moon_text(&mixed), Ok(vec![3, 4, 5]));
    // a shaped line with a bad number rejects the text
    let bad = b"<x=a, y=4, z=5>".to_vec();
    assert!(moons::parse_moon_text(&bad).is_err());
}
