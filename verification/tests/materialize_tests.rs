use genj::materialize::{process_template, Action, TemplateEntry, TemplateError, TemplateSource};

fn table(pairs: &[(&str, &str)]) -> Vec<(Vec<u8>, Vec<u8>)> {
    pairs
        .iter()
        .map(|(t, v)| (t.as_bytes().to_vec(), v.as_bytes().to_vec()))
        .collect()
}

fn comps(parts: &[&str]) -> Vec<Vec<u8>> {
    parts.iter().map(|p| p.as_bytes().to_vec()).collect()
}

fn zip_bytes(dirs: &[&str], files: &[(&str, &[u8])]) -> Vec<u8> {
    let mut w = zip::ZipWriter::new(std::io::Cursor::new(Vec::new()));
    for d in dirs {
        w.add_directory(*d, zip::write::SimpleFileOptions::default())
            .unwrap();
    }
    for (name, data) in files {
        w.start_file(*name, zip::write::SimpleFileOptions::default())
            .unwrap();
        std::io::Write::write_all(&mut w, data).unwrap();
    }
    w.finish().unwrap().into_inner()
}

#[test]
fn missing_template_is_not_found() {
    let t = table(&[]);
    let r = process_template(&TemplateSource::Missing, &t);
    assert_eq!(r, Err(TemplateError::NotFound));
}

#[test]
fn garbage_bytes_are_archive_corrupt() {
    let t = table(&[]);
    let src = TemplateSource::Archive(b"this is not an archive".to_vec());
    let r = process_template(&src, &t);
    assert_eq!(r, Err(TemplateError::ArchiveCorrupt));
}

#[test]
fn common_prefix_is_stripped() {
    let bytes = zip_bytes(
        &[],
        &[
            ("proj-root/src/App.java", b"class App {}"),
            ("proj-root/README.md", b"readme"),
        ],
    );
    let t = table(&[]);
    let acts = process_template(&TemplateSource::Archive(bytes), &t).unwrap();
    assert_eq!(
        acts,
        vec![
            Action::WriteFile {
                path: comps(&["src", "App.java"]),
                data: b"class App {}".to_vec(),
            },
            Action::WriteFile {
                path: comps(&["README.md"]),
                data: b"readme".to_vec(),
            },
        ]
    );
}

#[test]
fn differing_first_segments_keep_their_paths() {
    let bytes = zip_bytes(&[], &[("a/x.txt", b"one"), ("b/y.txt", b"two")]);
    let t = table(&[]);
    let acts = process_template(&TemplateSource::Archive(bytes), &t).unwrap();
    assert_eq!(
        acts,
        vec![
            Action::WriteFile {
                path: comps(&["a", "x.txt"]),
                data: b"one".to_vec(),
            },
            Action::WriteFile {
                path: comps(&["b", "y.txt"]),
                data: b"two".to_vec(),
            },
        ]
    );
}

#[test]
fn slashless_entry_defeats_the_prefix() {
    // a name without a slash has no first segment, so no common root
    // prefix exists and every entry keeps its full stored path
    let bytes = zip_bytes(&[], &[("README", b"top"), ("proj/x.txt", b"inner")]);
    let t = table(&[]);
    let acts = process_template(&TemplateSource::Archive(bytes), &t).unwrap();
    assert_eq!(
        acts,
        vec![
            Action::WriteFile {
                path: comps(&["README"]),
                data: b"top".to_vec(),
            },
            Action::WriteFile {
                path: comps(&["proj", "x.txt"]),
                data: b"inner".to_vec(),
            },
        ]
    );
}

#[test]
fn directory_entries_become_make_dir() {
    let bytes = zip_bytes(&["root/sub", "root/sub/deeper"], &[]);
    let t = table(&[]);
    let acts = process_template(&TemplateSource::Archive(bytes), &t).unwrap();
    assert_eq!(
        acts,
        vec![
            Action::MakeDir {
                path: comps(&["sub", ""]),
            },
            Action::MakeDir {
                path: comps(&["sub", "deeper", ""]),
            },
        ]
    );
}

#[test]
fn text_entry_is_substituted_and_package_path_expanded() {
    let bytes = zip_bytes(
        &[],
        &[(
            "tpl/src/${PACKAGE}/${MAINCLASS}.java",
            b"package ${PACKAGE};\nclass ${MAINCLASS} {}\n",
        )],
    );
    let t = table(&[("${PACKAGE}", "com.example.app"), ("${MAINCLASS}", "Main")]);
    let acts = process_template(&TemplateSource::Archive(bytes), &t).unwrap();
    assert_eq!(
        acts,
        vec![Action::WriteFile {
            path: comps(&["src", "com", "example", "app", "Main.java"]),
            data: b"package com.example.app;\nclass Main {}\n".to_vec(),
        }]
    );
}

#[test]
fn binary_entry_passes_through_unchanged() {
    let payload: &[u8] = &[0x50, 0x4b, 0x00, 0xff, 0x10, 0x00, 0x7f];
    let bytes = zip_bytes(&[], &[("root/blob.bin", payload)]);
    let t = table(&[("${X}", "should not apply")]);
    let acts = process_template(&TemplateSource::Archive(bytes), &t).unwrap();
    assert_eq!(
        acts,
        vec![Action::WriteFile {
            path: comps(&["blob.bin"]),
            data: payload.to_vec(),
        }]
    );
}

#[test]
fn rerunning_identical_inputs_plans_identical_actions() {
    let bytes = zip_bytes(
        &[],
        &[
            ("app/a.txt", b"${NAME} text".as_ref()),
            ("app/b.bin", [1u8, 0, 2].as_slice()),
        ],
    );
    let t = table(&[("${NAME}", "Demo")]);
    let src = TemplateSource::Archive(bytes);
    let first = process_template(&src, &t).unwrap();
    let second = process_template(&src, &t).unwrap();
    assert_eq!(first, second);
}

#[test]
fn directory_source_is_planned_in_order() {
    let entries = vec![
        TemplateEntry {
            rel_path: b"".to_vec(),
            is_dir: true,
            data: Vec::new(),
        },
        TemplateEntry {
            rel_path: b"src".to_vec(),
            is_dir: true,
            data: Vec::new(),
        },
        TemplateEntry {
            rel_path: b"src/${PROJECT_NAME}.txt".to_vec(),
            is_dir: false,
            data: b"hello ${PROJECT_NAME}".to_vec(),
        },
    ];
    let t = table(&[("${PROJECT_NAME}", "Demo")]);
    let acts = process_template(&TemplateSource::Directory(entries), &t).unwrap();
    assert_eq!(
        acts,
        vec![
            Action::MakeDir {
                path: comps(&[""]),
            },
            Action::MakeDir {
                path: comps(&["src"]),
            },
            Action::WriteFile {
                path: comps(&["src", "Demo.txt"]),
                data: b"hello Demo".to_vec(),
            },
        ]
    );
}

#[test]
fn directory_source_binary_file_is_copied() {
    let payload = vec![0u8, 159, 146, 150];
    let entries = vec![TemplateEntry {
        rel_path: b"img.dat".to_vec(),
        is_dir: false,
        data: payload.clone(),
    }];
    let t = table(&[("${X}", "y")]);
    let acts = process_template(&TemplateSource::Directory(entries), &t).unwrap();
    assert_eq!(
        acts,
        vec![Action::WriteFile {
            path: comps(&["img.dat"]),
            data: payload,
        }]
    );
}

#[test]
fn text_sample_with_invalid_tail_falls_back_to_empty() {
    // the first sampled bytes classify as text, but the full content is not
    // well-formed UTF-8: the pipeline writes empty content instead of failing
    let mut data = vec![b'a'; 8192];
    data.push(0xff);
    let entries = vec![TemplateEntry {
        rel_path: b"odd.txt".to_vec(),
        is_dir: false,
        data,
    }];
    let t = table(&[]);
    let acts = process_template(&TemplateSource::Directory(entries), &t).unwrap();
    assert_eq!(
        acts,
        vec![Action::WriteFile {
            path: comps(&["odd.txt"]),
            data: Vec::new(),
        }]
    );
}

#[test]
fn nul_past_the_sample_still_counts_as_text() {
    // the classification sample covers only the leading bytes, so a NUL
    // beyond it does not force binary; the content is still valid UTF-8 and
    // is substituted as text
    let mut data = vec![b'x'; 8192];
    data.push(0u8);
    let entries = vec![TemplateEntry {
        rel_path: b"late-nul.txt".to_vec(),
        is_dir: false,
        data: data.clone(),
    }];
    let t = table(&[]);
    let acts = process_template(&TemplateSource::Directory(entries), &t).unwrap();
    assert_eq!(
        acts,
        vec![Action::WriteFile {
            path: comps(&["late-nul.txt"]),
            data,
        }]
    );
}
