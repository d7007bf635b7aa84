use advent::homework::{HomeworkCalculation, HomeworkSheet, Operation};

const SAMPLE: &str = "\
123 328  51 64 
 45 64  387 23 
  6 98  215 314
*   +   *   +  
";

fn column(lines: &[&str]) -> Vec<String> {
    lines.iter().map(|line| line.to_string()).collect()
}

#[test]
fn sample_sheet() {
    let sheet = HomeworkSheet::parse(SAMPLE).unwrap();
    assert_eq!(sheet.column_count(), 4);
    let normal = sheet.get_normal_results().unwrap();
    assert_eq!(normal, vec![33210, 490, 4243455, 401]);
    assert_eq!(normal.iter().sum::<usize>(), 4277556);
    let down = sheet.get_cephalopod_results().unwrap();
    assert_eq!(down, vec![8544, 625, 3253600, 1058]);
    assert_eq!(down.iter().sum::<usize>(), 3263827);
}

#[test]
fn sample_calculations() {
    let sheet = HomeworkSheet::parse(SAMPLE).unwrap();
    let normal = sheet.get_normal_homework_calculations().unwrap();
    assert_eq!(normal.len(), 4);
    assert_eq!(normal[0].numbers(), &vec![123, 45, 6]);
    assert_eq!(normal[0].operation(), Operation::Multiply);
    assert_eq!(normal[1].numbers(), &vec![328, 64, 98]);
    assert_eq!(normal[1].operation(), Operation::Addition);
    assert_eq!(normal[3].numbers(), &vec![64, 23, 314]);
    let down = sheet.get_cephalopod_homework_calculations().unwrap();
    assert_eq!(down[0].numbers(), &vec![1, 24, 356]);
    assert_eq!(down[1].numbers(), &vec![369, 248, 8]);
    assert_eq!(down[2].numbers(), &vec![32, 581, 175]);
    assert_eq!(down[3].numbers(), &vec![623, 431, 4]);
    assert_eq!(down[3].operation(), Operation::Addition);
}

#[test]
fn operations() {
    assert_eq!(Operation::parse("+"), Some(Operation::Addition));
    assert_eq!(Operation::parse("*"), Some(Operation::Multiply));
    assert_eq!(Operation::parse("-"), None);
    assert_eq!(Operation::parse(""), None);
    assert_eq!(Operation::parse("++"), None);
    assert_eq!(Operation::parse(" +"), None);
    assert_eq!(Operation::Addition.calculate(&[1, 2, 3]), Some(6));
    assert_eq!(Operation::Multiply.calculate(&[2, 3, 4]), Some(24));
    assert_eq!(Operation::Addition.calculate(&[]), Some(0));
    assert_eq!(Operation::Multiply.calculate(&[]), Some(1));
    assert_eq!(Operation::Addition.calculate(&[usize::MAX, 0]), Some(usize::MAX));
    assert_eq!(Operation::Addition.calculate(&[usize::MAX, 1]), None);
    assert_eq!(Operation::Multiply.calculate(&[usize::MAX, 1]), Some(usize::MAX));
    assert_eq!(Operation::Multiply.calculate(&[usize::MAX, 2]), None);
    assert_eq!(Operation::Multiply.calculate(&[usize::MAX, 2, 0]), Some(0));
    assert_eq!(Operation::Multiply.calculate(&[0, usize::MAX, usize::MAX]), Some(0));
}

#[test]
fn columns_line_by_line() {
    let calculation = HomeworkCalculation::normal_from_column(&column(&["12 ", " 7", "*"])).unwrap();
    assert_eq!(calculation.numbers(), &vec![12, 7]);
    assert_eq!(calculation.operation(), Operation::Multiply);
    assert_eq!(calculation.get_result(), Some(84));

    let only_operation = HomeworkCalculation::normal_from_column(&column(&[" + "])).unwrap();
    assert_eq!(only_operation.numbers(), &Vec::<usize>::new());
    assert_eq!(only_operation.get_result(), Some(0));

    assert!(HomeworkCalculation::normal_from_column(&[]).is_none());
    assert!(HomeworkCalculation::normal_from_column(&column(&["1", "2"])).is_none());
    assert!(HomeworkCalculation::normal_from_column(&column(&["1 2", "+"])).is_none());
    assert!(HomeworkCalculation::normal_from_column(&column(&["", "+"])).is_none());
    assert!(HomeworkCalculation::normal_from_column(&column(&["x", "+"])).is_none());
    assert!(HomeworkCalculation::normal_from_column(&column(&["1", "/"])).is_none());
    let largest = usize::MAX.to_string();
    let fits = HomeworkCalculation::normal_from_column(&column(&[&largest, "+"])).unwrap();
    assert_eq!(fits.get_result(), Some(usize::MAX));
    let too_large = format!("{}0", largest);
    assert!(HomeworkCalculation::normal_from_column(&column(&[&too_large, "+"])).is_none());
}

#[test]
fn columns_read_down() {
    let calculation =
        HomeworkCalculation::cephalopod_from_column(&column(&["64 ", "23 ", "314", "+  "])).unwrap();
    assert_eq!(calculation.numbers(), &vec![623, 431, 4]);
    assert_eq!(calculation.operation(), Operation::Addition);
    assert_eq!(calculation.get_result(), Some(1058));

    let gaps = HomeworkCalculation::cephalopod_from_column(&column(&["1 2", "  3", "*"])).unwrap();
    assert_eq!(gaps.numbers(), &vec![1, 23]);
    assert_eq!(gaps.get_result(), Some(23));

    let zeros = HomeworkCalculation::cephalopod_from_column(&column(&["0a", "07", "+"])).unwrap();
    assert_eq!(zeros.numbers(), &vec![0, 7]);

    let digit_in_last = HomeworkCalculation::cephalopod_from_column(&column(&["1", "+"])).unwrap();
    assert_eq!(digit_in_last.numbers(), &vec![1]);

    assert!(HomeworkCalculation::cephalopod_from_column(&[]).is_none());
    assert!(HomeworkCalculation::cephalopod_from_column(&column(&["12", "34"])).is_none());
    let lines: Vec<String> = usize::MAX
        .to_string()
        .chars()
        .map(|c| c.to_string())
        .chain(std::iter::once("+".to_string()))
        .collect();
    let fits = HomeworkCalculation::cephalopod_from_column(&lines).unwrap();
    assert_eq!(fits.numbers(), &vec![usize::MAX]);
    let mut longer = vec!["9".to_string()];
    longer.extend(lines);
    assert!(HomeworkCalculation::cephalopod_from_column(&longer).is_none());
}

#[test]
fn results() {
    assert_eq!(HomeworkCalculation::new(vec![3, 4], Operation::Multiply).get_result(), Some(12));
    assert_eq!(HomeworkCalculation::new(vec![3, 4], Operation::Addition).get_result(), Some(7));
    assert_eq!(
        HomeworkCalculation::new(vec![usize::MAX, 2], Operation::Multiply).get_result(),
        None
    );
}

#[test]
fn sheets_that_are_none() {
    assert!(HomeworkSheet::parse("").is_none());
    assert!(HomeworkSheet::parse("1\n 2\n  +\n").is_none());
    let blank = HomeworkSheet::parse("12\n  \n").unwrap();
    assert_eq!(blank.column_count(), 0);
    assert_eq!(blank.get_normal_results(), Some(Vec::new()));
    let sheet = HomeworkSheet::parse("1 2\n3 4\n+ x\n").unwrap();
    assert_eq!(sheet.column_count(), 2);
    assert!(sheet.get_normal_results().is_none());
    assert!(sheet.get_cephalopod_homework_calculations().is_none());
    let width = usize::MAX.to_string().len();
    let large = format!("{} 1\n{:<w$} 1\n{:<w$} +\n", usize::MAX, 2, "*", w = width);
    let sheet = HomeworkSheet::parse(&large).unwrap();
    assert_eq!(sheet.column_count(), 2);
    let calculations = sheet.get_normal_homework_calculations().unwrap();
    assert_eq!(calculations[0].numbers(), &vec![usize::MAX, 2]);
    assert_eq!(calculations[1].get_result(), Some(2));
    assert!(sheet.get_normal_results().is_none());
}

#[test]
fn short_lines_and_wide_columns() {
    assert!(HomeworkSheet::parse("10 200\n 5\n+  *\n").is_none());
    let sheet = HomeworkSheet::parse("10 200\n 5 \n+  *\n").unwrap();
    assert_eq!(sheet.column_count(), 2);
    assert!(sheet.get_normal_homework_calculations().is_none());
    let down = sheet.get_cephalopod_homework_calculations().unwrap();
    assert_eq!(down[1].numbers(), &vec![2, 0, 0]);
    let sheet = HomeworkSheet::parse("10 200\n 5 3\n+  *\n").unwrap();
    assert_eq!(sheet.get_normal_results(), Some(vec![15, 600]));
    assert_eq!(sheet.get_cephalopod_results(), Some(vec![1 + 5, 23 * 0 * 0]));
}
