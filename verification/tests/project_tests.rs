use evm_deployment_info::project::{validate_hardhat_project, ProjectError};
use evm_deployment_info::table::{create_sui_style_format, CellStyle};

#[test]
fn project_with_configuration_is_accepted() {
    assert_eq!(validate_hardhat_project(true), Ok(()));
}

#[test]
fn project_without_configuration_is_refused() {
    assert_eq!(validate_hardhat_project(false), Err(ProjectError::ConfigNotFound));
    assert_eq!(
        ProjectError::ConfigNotFound.message(),
        "No hardhat.config.ts found in the specified root directory"
    );
}

#[test]
fn frame_of_the_tables() {
    let style = create_sui_style_format();
    assert_eq!(style.column_separator, '│');
    assert_eq!(style.border, '│');
    assert_eq!((style.top.line, style.top.junction, style.top.left, style.top.right), ('─', '┬', '╭', '╮'));
    assert_eq!(
        (style.bottom.line, style.bottom.junction, style.bottom.left, style.bottom.right),
        ('─', '┴', '╰', '╯')
    );
    assert_eq!(
        (style.inner.line, style.inner.junction, style.inner.left, style.inner.right),
        ('─', '┼', '├', '┤')
    );
    assert_eq!((style.pad_left, style.pad_right), (1, 1));
}

#[test]
fn cell_styles_in_the_notation_of_table_printers() {
    assert_eq!(CellStyle::Plain.style_spec(), "");
    assert_eq!(CellStyle::Bold.style_spec(), "b");
    assert_eq!(CellStyle::Blue.style_spec(), "Fb");
}
