use evm_deployment_info::title::{camel_to_title_case, capitalize_words, split_words};

#[test]
fn title_case_of_a_camel_case_name() {
    assert_eq!(camel_to_title_case("arbitrumSepolia"), "Arbitrum Sepolia");
}

#[test]
fn title_case_puts_a_space_into_every_hump() {
    assert_eq!(camel_to_title_case("polygonZkEvmTestnet"), "Polygon Zk Evm Testnet");
    assert_eq!(camel_to_title_case("base2Sepolia"), "Base2 Sepolia");
    assert_eq!(camel_to_title_case("opBNB"), "Op BNB");
    assert_eq!(camel_to_title_case("Mainnet"), "Mainnet");
    assert_eq!(camel_to_title_case("ethereum"), "Ethereum");
    assert_eq!(camel_to_title_case(""), "");
}

#[test]
fn title_case_differs_from_its_argument() {
    assert_ne!(camel_to_title_case("aB"), "aB");
    assert_eq!(camel_to_title_case("aB"), "A B");
}

#[test]
fn words_are_split_at_white_space() {
    assert_eq!(
        split_words("  two\twords\u{a0}here \n"),
        vec![vec!['t', 'w', 'o'], vec!['w', 'o', 'r', 'd', 's'], vec!['h', 'e', 'r', 'e']]
    );
    assert_eq!(split_words(""), Vec::<Vec<char>>::new());
    assert_eq!(split_words(" \n"), Vec::<Vec<char>>::new());
}

#[test]
fn words_are_capitalized_and_joined_by_single_spaces() {
    assert_eq!(capitalize_words("  arbitrum   one "), "Arbitrum One");
    assert_eq!(capitalize_words("ßeta"), "SSeta");
    assert_eq!(capitalize_words("1st"), "1st");
}
