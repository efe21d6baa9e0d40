use files_to_prompt::collection::FileCollection;
use files_to_prompt::render::{print_files, FileContent, Format, PrintFileOptions};
use files_to_prompt::restore::{next_record, restore, target_path, ParseError, Step};

fn restored(input: &str) -> (Vec<(String, String)>, Option<ParseError>) {
    let result = restore(input.as_bytes());
    let files = result
        .files
        .into_iter()
        .map(|f| (String::from_utf8(f.path).unwrap(), String::from_utf8(f.content).unwrap()))
        .collect();
    (files, result.error)
}

fn pair(path: &str, content: &str) -> (String, String) {
    (path.to_string(), content.to_string())
}

#[test]
fn test_files_to_prompt_reverse() {
    let stdin_data = "<documents>\n\
        <document path=\"file1.txt\">\nContents of file1.txt\n</document>\n\
        <document path=\"file2.txt\">\nContents of file2.txt\n</document>\n\
        <document path=\"folder/file3.txt\">\nContents of file3.txt\n</document>\n\
        </documents>\n";
    let output = restore(stdin_data.as_bytes());
    assert!(output.error.is_none());

    let expected_files = vec![
        ("file1.txt", "Contents of file1.txt\n"),
        ("file2.txt", "Contents of file2.txt\n"),
        ("folder/file3.txt", "Contents of file3.txt\n"),
    ];

    assert_eq!(output.files.len(), expected_files.len());
    for (file, (file_name, expected_content)) in output.files.iter().zip(expected_files) {
        let file_path = target_path(Some(b"/tmp/out"), &file.path);
        assert_eq!(file_path, format!("/tmp/out/{}", file_name).into_bytes());
        let file_contents = String::from_utf8(file.content.clone()).unwrap();
        println!("File {:?} contents: {:?}", file_name, file_contents);
        assert_eq!(file_contents, expected_content);
    }
}

#[test]
fn document_is_read_back_as_it_was_written() {
    let files = [
        ("a/one.txt", "first\nsecond\n"),
        ("b.rs", "fn main() { if 1 < 2 && 3 > 2 { println!(\"<tag>\"); } }"),
        ("empty", ""),
        ("no newline", "x"),
        ("odd>name", "\n\n<document path=\"inner\">\n"),
        ("z", "</documen\n</ document>\r\n"),
    ];
    let mut collection = FileCollection::new();
    let mut contents = Vec::new();
    for (path, content) in files {
        collection.insert(path.as_bytes());
        contents.push(FileContent::Bytes(content.as_bytes().to_vec()));
    }
    let options = PrintFileOptions { line_numbers: false, format: Format::Cxml };
    let document = print_files(&collection, &contents, &options).output;
    let (read, error) = restored(&String::from_utf8(document).unwrap());
    assert_eq!(error, None);
    let expected: Vec<(String, String)> = files.iter().map(|(p, c)| pair(p, c)).collect();
    assert_eq!(read, expected);
}

#[test]
fn document_of_no_files_is_read_back_as_no_files() {
    let options = PrintFileOptions { line_numbers: false, format: Format::Cxml };
    let document = print_files(&FileCollection::new(), &Vec::new(), &options).output;
    let (read, error) = restored(&String::from_utf8(document).unwrap());
    assert_eq!(error, None);
    assert!(read.is_empty());
    assert_eq!(restored(""), (vec![], None));
}

#[test]
fn only_the_first_newline_after_the_tag_is_dropped() {
    let (read, error) = restored("<document path=\"a\">\n\nx\n\n</document>");
    assert_eq!(error, None);
    assert_eq!(read, vec![pair("a", "\nx\n\n")]);
    let (read, _) = restored("<document path=\"a\">x</document>");
    assert_eq!(read, vec![pair("a", "x")]);
    let (read, _) = restored("<document path=\"a\">\r\nx</document>");
    assert_eq!(read, vec![pair("a", "\r\nx")]);
}

#[test]
fn element_without_a_path_writes_nothing() {
    let input = "<documents>\n<document>\nlost\n</document>\n\
                 <document path=\"\">\nlost too\n</document>\n\
                 <document path=\"kept\">\nfound\n</document>\n</documents>\n";
    assert_eq!(restored(input), (vec![pair("kept", "found\n")], None));
    match next_record(input.as_bytes(), 0) {
        Ok(Step::Skip { next }) => assert_eq!(&input.as_bytes()[..next], b"<documents>\n<document>\nlost\n</document>"),
        _ => panic!("expected an element without a path"),
    }
}

#[test]
fn path_is_the_value_of_the_path_attribute() {
    let input = "<document index=\"1\" path=\"a\">x</document>";
    assert_eq!(restored(input), (vec![pair("a", "x")], None));
    let input = "<document\tpath=\"a b/c\" other=\"y>z\" >x</document>";
    assert_eq!(restored(input), (vec![pair("a b/c", "x")], None));
    let input = "<document\npath=\"first\" path=\"second\">x</document>";
    assert_eq!(restored(input), (vec![pair("first", "x")], None));
    let input = "<document note=\"path=\" path=\"p>q\">x</document>";
    assert_eq!(restored(input), (vec![pair("p>q", "x")], None));
}

#[test]
fn element_with_other_attributes_only_writes_nothing() {
    let input = "<document index=\"1\">lost</document>\
                 <document xpath=\"b\">lost</document>\
                 <document mypath=\"c\" path=\"\" >lost</document>\
                 <document index=\"2\" path=\"kept\">found</document>";
    assert_eq!(restored(input), (vec![pair("kept", "found")], None));
    assert!(matches!(next_record(b"<document index=\"1\">lost</document>", 0), Ok(Step::Skip { next: 35 })));
}

#[test]
fn text_outside_the_elements_is_passed_over() {
    let input = "hello <b>world</b>\n<documentation>\n</documents>\n<document path=\"a\">A</document> and <documents> more";
    assert_eq!(restored(input), (vec![pair("a", "A")], None));
}

#[test]
fn steps_go_through_the_document() {
    let input = b"<document path=\"a\">A</document>\n<document path=\"b\">\nB\n</document>\n";
    let first = next_record(input, 0);
    let next = match first {
        Ok(Step::File { file, next }) => {
            assert_eq!(file.path, b"a".to_vec());
            assert_eq!(file.content, b"A".to_vec());
            assert_eq!(next, 31);
            next
        }
        _ => panic!("expected a file"),
    };
    let next = match next_record(input, next) {
        Ok(Step::File { file, next }) => {
            assert_eq!(file.path, b"b".to_vec());
            assert_eq!(file.content, b"B\n".to_vec());
            assert_eq!(next, input.len() - 1);
            next
        }
        _ => panic!("expected a file"),
    };
    assert!(matches!(next_record(input, next), Ok(Step::End)));
    assert!(matches!(next_record(input, input.len()), Ok(Step::End)));
    assert!(matches!(next_record(input, input.len() + 5), Ok(Step::End)));
}

#[test]
fn element_that_is_not_closed_stops_the_reading() {
    let input = "<document path=\"a\">\nA\n</document>\n<document path=\"b\">\nB\n";
    assert_eq!(restored(input), (vec![pair("a", "A\n")], Some(ParseError::UnclosedDocument)));
    assert_eq!(
        restored("<document path=\"b\">\nB\n</document"),
        (vec![], Some(ParseError::UnclosedDocument))
    );
}

#[test]
fn closing_tag_outside_an_element_stops_the_reading() {
    let input = "<document path=\"a\">A</document></document><document path=\"b\">B</document>";
    assert_eq!(restored(input), (vec![pair("a", "A")], Some(ParseError::UnexpectedClose)));
    assert!(matches!(next_record(b"</document>", 0), Err(ParseError::UnexpectedClose)));
}

#[test]
fn opening_tag_that_is_not_ended_stops_the_reading() {
    assert_eq!(restored("<document path=\"a"), (vec![], Some(ParseError::UnterminatedTag)));
    assert_eq!(restored("<document path=\"a\""), (vec![], Some(ParseError::UnterminatedTag)));
    assert_eq!(restored("<document path="), (vec![], Some(ParseError::UnterminatedTag)));
    assert_eq!(
        restored("<document path=\"a\">A</document><document "),
        (vec![pair("a", "A")], Some(ParseError::UnterminatedTag))
    );
    assert_eq!(
        restored("<document index=\"1\" path=\"a>x</document>"),
        (vec![], Some(ParseError::UnterminatedTag))
    );
}

#[test]
fn target_is_the_path_under_the_base_directory() {
    assert_eq!(target_path(None, b"a/b.txt"), b"./a/b.txt".to_vec());
    assert_eq!(target_path(Some(b"out"), b"a/b.txt"), b"out/a/b.txt".to_vec());
    assert_eq!(target_path(Some(b"out/"), b"a/b.txt"), b"out/a/b.txt".to_vec());
    assert_eq!(target_path(Some(b""), b"a/b.txt"), b"a/b.txt".to_vec());
    assert_eq!(target_path(Some(b"out"), b"/abs/b.txt"), b"/abs/b.txt".to_vec());
    assert_eq!(target_path(None, b"/abs"), b"/abs".to_vec());
    assert_eq!(target_path(Some(b"/"), b"a"), b"/a".to_vec());
}
